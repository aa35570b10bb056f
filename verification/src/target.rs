//! What a translation aims at: a client version, the tables towards it, and the
//! texts that were rendered for it.
use vstd::prelude::*;
use crate::catalog::Catalog;
use crate::hover::TextNode;
use crate::mapping::ComposedMappings;
use crate::nbt;
use crate::nbt::NbtTag;
use crate::nbt::Tag;
use crate::version::Version;
use crate::wire;

verus! {

/// A text tag, as its bytes on its own, with what the client can read of the text,
/// and the forms of that which a client of the target version reads.
pub struct Rendering {
    pub tag: Vec<u8>,
    pub text: TextNode,
    pub json: Vec<u8>,
    pub plain: Vec<u8>,
}

/// A text as a client wrote it, with the tag it stands for, as its bytes on its
/// own.
pub struct Parsing {
    pub text: Vec<u8>,
    pub tag: Vec<u8>,
}

/// The texts of the stacks at hand, rendered and parsed beforehand.
pub struct Texts {
    pub rendered: Vec<Rendering>,
    pub parsed: Vec<Parsing>,
}

pub struct Target<'a> {
    pub version: Version,
    pub ids: &'a ComposedMappings,
    pub cat: &'a Catalog,
    pub texts: &'a Texts,
}

pub open spec fn rendering_from(rows: Seq<Rendering>, tag: Seq<u8>, i: int) -> Option<Rendering>
    decreases rows.len() - i,
{
    if i < 0 || i >= rows.len() {
        None
    } else if rows[i].tag@ == tag {
        Some(rows[i])
    } else {
        rendering_from(rows, tag, i + 1)
    }
}

/// The JSON form of a text tag; a text that was not rendered is empty.
pub open spec fn json_of(texts: &Texts, tag: Option<Tag>) -> Seq<u8> {
    match rendering_from(texts.rendered@, nbt::enc_nbt(tag, false), 0) {
        Some(row) => row.json@,
        None => seq![],
    }
}

/// The plain form of a text tag; a text that was not rendered is empty.
pub open spec fn plain_of(texts: &Texts, tag: Option<Tag>) -> Seq<u8> {
    match rendering_from(texts.rendered@, nbt::enc_nbt(tag, false), 0) {
        Some(row) => row.plain@,
        None => seq![],
    }
}

pub open spec fn parsing_from(rows: Seq<Parsing>, text: Seq<u8>, i: int) -> Option<Seq<u8>>
    decreases rows.len() - i,
{
    if i < 0 || i >= rows.len() {
        None
    } else if rows[i].text@ == text {
        Some(rows[i].tag@)
    } else {
        parsing_from(rows, text, i + 1)
    }
}

/// The tag that a client's text stands for, as its bytes; a text that was not
/// parsed stands for itself, as a string tag.
pub open spec fn tag_bytes_of(texts: &Texts, text: Seq<u8>) -> Seq<u8> {
    match parsing_from(texts.parsed@, text, 0) {
        Some(bytes) => bytes,
        None => nbt::enc_nbt(Some(nbt::string_tag(text)), false),
    }
}

impl Texts {
    #[verifier::loop_isolation(false)]
    fn rendering(&self, tag: &Option<NbtTag>) -> (res: Option<&Rendering>)
        ensures
            match res {
                Some(row) => rendering_from(self.rendered@, nbt::enc_nbt(nbt::tag_opt(*tag), false), 0)
                    == Some(*row),
                None => rendering_from(self.rendered@, nbt::enc_nbt(nbt::tag_opt(*tag), false), 0) is None,
            },
    {
        let mut key: Vec<u8> = Vec::new();
        match tag {
            Some(tag) => nbt::write_nbt(&mut key, tag, false),
            None => key.push(0),
        }
        assert(key@ =~= nbt::enc_nbt(nbt::tag_opt(*tag), false));
        let mut i: usize = 0;
        while i < self.rendered.len()
            invariant
                i <= self.rendered.len(),
                rendering_from(self.rendered@, key@, 0) == rendering_from(self.rendered@, key@, i as int),
            decreases self.rendered.len() - i,
        {
            if wire::same_bytes(self.rendered[i].tag.as_slice(), key.as_slice()) {
                return Some(&self.rendered[i]);
            }
            i = i + 1;
        }
        None
    }

    pub fn json(&self, tag: &Option<NbtTag>) -> (res: Vec<u8>)
        ensures
            res@ == json_of(self, nbt::tag_opt(*tag)),
    {
        match self.rendering(tag) {
            Some(row) => row.json.clone(),
            None => Vec::new(),
        }
    }

    pub fn plain(&self, tag: &Option<NbtTag>) -> (res: Vec<u8>)
        ensures
            res@ == plain_of(self, nbt::tag_opt(*tag)),
    {
        match self.rendering(tag) {
            Some(row) => row.plain.clone(),
            None => Vec::new(),
        }
    }

    #[verifier::loop_isolation(false)]
    pub fn tag_bytes(&self, text: &[u8]) -> (res: Vec<u8>)
        ensures
            res@ == tag_bytes_of(self, text@),
    {
        let mut i: usize = 0;
        while i < self.parsed.len()
            invariant
                i <= self.parsed.len(),
                parsing_from(self.parsed@, text@, 0) == parsing_from(self.parsed@, text@, i as int),
            decreases self.parsed.len() - i,
        {
            if wire::same_bytes(self.parsed[i].text.as_slice(), text) {
                return self.parsed[i].tag.clone();
            }
            i = i + 1;
        }
        let mut out: Vec<u8> = Vec::new();
        nbt::write_nbt(&mut out, &nbt::new_string_tag(text), false);
        out
    }
}

} // verus!
