//! The releases of the Java edition that the layouts tell apart, in order.
use vstd::prelude::*;

verus! {

/// A release by its place in the release order; releases that share a protocol
/// share a place.
pub type Version = u32;

pub const V_1_8: Version = 10;
pub const V_1_9: Version = 20;
pub const V_1_11: Version = 30;
pub const V_1_12: Version = 40;
pub const V_1_12_2: Version = 42;
pub const V_1_13: Version = 50;
pub const V_1_13_2: Version = 52;
pub const V_1_14: Version = 60;
pub const V_1_14_4: Version = 64;
pub const V_1_15: Version = 70;
pub const V_1_15_2: Version = 72;
pub const V_1_16: Version = 80;
pub const V_1_16_1: Version = 81;
pub const V_1_16_2: Version = 82;
pub const V_1_16_3: Version = 83;
pub const V_1_16_4: Version = 84;
pub const V_1_17: Version = 90;
pub const V_1_17_1: Version = 91;
pub const V_1_18: Version = 100;
pub const V_1_18_2: Version = 102;
pub const V_1_19: Version = 110;
pub const V_1_19_1: Version = 111;
pub const V_1_19_3: Version = 113;
pub const V_1_19_4: Version = 114;
pub const V_1_20: Version = 120;
pub const V_1_20_2: Version = 122;
pub const V_1_20_3: Version = 123;
pub const V_1_20_5: Version = 125;
pub const V_1_21: Version = 130;
pub const V_1_21_2: Version = 132;
pub const V_1_21_4: Version = 134;
pub const V_1_21_5: Version = 135;
pub const V_1_21_6: Version = 136;
pub const V_1_21_7: Version = 137;
pub const V_1_21_9: Version = 139;
pub const V_1_21_11: Version = 141;
pub const V_26_1: Version = 150;
pub const V_26_2: Version = 160;
pub const V_26_3: Version = 170;

/// The oldest release that clients may join with.
pub const LOWEST_SUPPORTED: Version = V_1_16_2;
/// The newest release below the server's own.
pub const HIGHEST_SUPPORTED: Version = V_26_2;

/// A release that has a protocol number: the number, the place in the order, how
/// the release is called, and the number of the packet that ends a login.
pub struct Release {
    pub protocol: i32,
    pub version: Version,
    pub name: Vec<u8>,
    pub login_disconnect: i32,
}

pub open spec fn protocol_from(releases: Seq<Release>, protocol: i32, i: int) -> Option<Release>
    decreases releases.len() - i,
{
    if i < 0 || i >= releases.len() {
        None
    } else if releases[i].protocol == protocol {
        Some(releases[i])
    } else {
        protocol_from(releases, protocol, i + 1)
    }
}

/// The release with a protocol number. Negative numbers stand for no release: the
/// Bedrock edition is told apart by one.
pub open spec fn release_of(releases: Seq<Release>, protocol: i32) -> Option<Release> {
    if protocol < 0 {
        None
    } else {
        protocol_from(releases, protocol, 0)
    }
}

#[verifier::loop_isolation(false)]
pub fn find_release(releases: &Vec<Release>, protocol: i32) -> (res: Option<&Release>)
    ensures
        match res {
            Some(release) => release_of(releases@, protocol) == Some(*release),
            None => release_of(releases@, protocol) is None,
        },
{
    if protocol < 0 {
        return None;
    }
    let mut i: usize = 0;
    while i < releases.len()
        invariant
            i <= releases.len(),
            protocol_from(releases@, protocol, 0) == protocol_from(releases@, protocol, i as int),
        decreases releases.len() - i,
    {
        if releases[i].protocol == protocol {
            return Some(&releases[i]);
        }
        i = i + 1;
    }
    None
}

pub open spec fn name_from(releases: Seq<Release>, version: Version, i: int) -> Seq<u8>
    decreases releases.len() - i,
{
    if i < 0 || i >= releases.len() {
        seq![]
    } else if releases[i].version == version {
        releases[i].name@
    } else {
        name_from(releases, version, i + 1)
    }
}

/// How a release is called; one that is not in the table has no name.
pub open spec fn name_of(releases: Seq<Release>, version: Version) -> Seq<u8> {
    name_from(releases, version, 0)
}

#[verifier::loop_isolation(false)]
pub fn version_name(releases: &Vec<Release>, version: Version) -> (res: Vec<u8>)
    ensures
        res@ == name_of(releases@, version),
{
    let mut i: usize = 0;
    while i < releases.len()
        invariant
            i <= releases.len(),
            name_from(releases@, version, 0) == name_from(releases@, version, i as int),
        decreases releases.len() - i,
    {
        if releases[i].version == version {
            return releases[i].name.clone();
        }
        i = i + 1;
    }
    Vec::new()
}

/// Whether clients of a release may join.
#[verifier::allow_in_spec]
pub fn is_version_supported(version: Version) -> bool
    returns
        (LOWEST_SUPPORTED <= version && version <= HIGHEST_SUPPORTED),
{
    LOWEST_SUPPORTED <= version && version <= HIGHEST_SUPPORTED
}

/// Before 1.20.2 the root tag of an NBT field carries a name.
pub open spec fn nbt_is_named(version: Version) -> bool {
    version < V_1_20_2
}

pub fn has_named_nbt(version: Version) -> (res: bool)
    ensures
        res == nbt_is_named(version),
{
    version < V_1_20_2
}

} // verus!
