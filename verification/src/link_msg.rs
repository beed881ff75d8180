//! Link messages: the members of groups that keep them in their object headers.
//!
//! A link is its version, flags, as the flags say the link's type, a creation index
//! (8) and a character set, the length of its name, the name, and where it leads: the
//! address of an object; the length (2) of a path and the path; or the length (2) of
//! a file's name and a path in it, which follow a byte of flags, each ended by a zero
//! byte.

use vstd::prelude::*;
use crate::bytes::{get_le, get_u16, le_at};
use crate::error::{outcome, text, ErrorKind, OxiH5Error};
use crate::object::Link;
use crate::superblock::{offset_at, read_offset_at};
use crate::utf8::{as_text, find_nul, nul_from, utf8_text};

verus! {

/// A [`Link`] as a mathematical value.
pub enum LinkModel {
    Hard { address: u64 },
    Soft { path: Seq<char> },
    External { file: Seq<char>, path: Seq<char> },
}

impl View for Link {
    type V = LinkModel;

    open spec fn view(&self) -> LinkModel {
        match self {
            Link::Hard { address } => LinkModel::Hard { address: *address },
            Link::Soft { path } => LinkModel::Soft { path: path@ },
            Link::External { file, path } => LinkModel::External { file: file@, path: path@ },
        }
    }
}

/// A named link.
#[derive(Debug)]
pub struct ParsedLink {
    pub name: String,
    pub link: Link,
}

impl View for ParsedLink {
    type V = (Seq<char>, LinkModel);

    open spec fn view(&self) -> (Seq<char>, LinkModel) {
        (self.name@, self.link@)
    }
}

/// Whether a flag is set.
pub open spec fn flag(flags: u8, value: u8) -> bool {
    (flags / value) % 2 == 1
}

/// Where the length of the name starts.
pub open spec fn name_len_pos(flags: u8) -> int {
    2 + (if flag(flags, 8) {
        1int
    } else {
        0
    }) + (if flag(flags, 4) {
        8int
    } else {
        0
    }) + (if flag(flags, 16) {
        1int
    } else {
        0
    })
}

/// How many bytes the length of the name has.
pub open spec fn name_len_width(flags: u8) -> nat {
    match flags % 4 {
        0 => 1,
        1 => 2,
        2 => 4,
        _ => 8,
    }
}

/// The text of `bytes`, which must be UTF-8.
pub open spec fn text_of(bytes: Seq<u8>) -> Result<Seq<char>, ErrorKind> {
    match utf8_text(bytes) {
        Some(chars) => Ok(chars),
        None => Err(ErrorKind::Format),
    }
}

/// The file and the path of an external link, whose flags are at the start of `s`.
pub open spec fn external_in(s: Seq<u8>) -> Result<LinkModel, ErrorKind> {
    if s.len() < 1 {
        Err(ErrorKind::Format)
    } else {
        let a = nul_from(s, 1);
        let b = nul_from(s, a + 1);
        if a >= s.len() || b >= s.len() {
            Err(ErrorKind::Format)
        } else {
            match (text_of(s.subrange(1, a)), text_of(s.subrange(a + 1, b))) {
                (Ok(file), Ok(path)) => Ok(LinkModel::External { file, path }),
                _ => Err(ErrorKind::Format),
            }
        }
    }
}

/// Where a link of that type leads, as the bytes from `at` on say.
pub open spec fn target_in(data: Seq<u8>, at: int, kind: u8, width: int) -> Result<
    LinkModel,
    ErrorKind,
> {
    if kind == 0 {
        match offset_at(data, at, width) {
            Ok(address) => Ok(LinkModel::Hard { address }),
            Err(kind) => Err(kind),
        }
    } else if kind == 1 || kind == 64 {
        if at + 2 > data.len() || at + 2 + le_at(data, at, 2) > data.len() {
            Err(ErrorKind::Format)
        } else {
            let part = data.subrange(at + 2, at + 2 + le_at(data, at, 2));
            if kind == 64 {
                external_in(part)
            } else {
                match text_of(part) {
                    Ok(path) => Ok(LinkModel::Soft { path }),
                    Err(kind) => Err(kind),
                }
            }
        }
    } else {
        Err(ErrorKind::NotImplemented)
    }
}

/// The link in a message, in a file whose addresses have `width` bytes.
pub open spec fn link_in(data: Seq<u8>, width: int) -> Result<
    (Seq<char>, LinkModel),
    ErrorKind,
> {
    if data.len() < 2 || data[0] != 1 {
        Err(ErrorKind::Format)
    } else {
        let flags = data[1];
        let pos = name_len_pos(flags);
        let from = pos + name_len_width(flags);
        let kind = if flag(flags, 8) {
            data[2]
        } else {
            0
        };
        if from > data.len() || from + le_at(data, pos, name_len_width(flags)) > data.len() {
            Err(ErrorKind::Format)
        } else {
            let end = from + le_at(data, pos, name_len_width(flags));
            match text_of(data.subrange(from, end)) {
                Err(kind) => Err(kind),
                Ok(name) => match target_in(data, end, kind, width) {
                    Err(kind) => Err(kind),
                    Ok(link) => Ok((name, link)),
                },
            }
        }
    }
}

fn truncated() -> (r: OxiH5Error)
    ensures
        r@ == ErrorKind::Format,
{
    OxiH5Error::Format("link message is truncated".to_string())
}

fn read_text(bytes: &[u8]) -> (r: Result<String, OxiH5Error>)
    ensures
        outcome(r) == text_of(bytes@),
{
    match as_text(bytes) {
        Some(s) => Ok(s.to_string()),
        None => Err(OxiH5Error::Format("link message: text is not valid UTF-8".to_string())),
    }
}

fn read_external(part: &[u8]) -> (r: Result<Link, OxiH5Error>)
    ensures
        outcome(r) == external_in(part@),
{
    if part.len() < 1 {
        return Err(truncated());
    }
    let a: usize = find_nul(part, 1);
    if a == part.len() {
        return Err(truncated());
    }
    let b: usize = find_nul(part, a + 1);
    if b == part.len() {
        return Err(truncated());
    }
    let file: String = read_text(vstd::slice::slice_subrange(part, 1, a))?;
    let path: String = read_text(vstd::slice::slice_subrange(part, a + 1, b))?;
    Ok(Link::External { file, path })
}

fn read_target(data: &[u8], at: usize, kind: u8, width: u8) -> (r: Result<Link, OxiH5Error>)
    requires
        at <= data@.len(),
    ensures
        outcome(r) == target_in(data@, at as int, kind, width as int),
{
    if kind == 0 {
        if data.len() - at < width as usize {
            return Err(truncated());
        }
        let address: u64 = read_offset_at(data, at, width as usize)?;
        Ok(Link::Hard { address })
    } else if kind == 1 || kind == 64 {
        if data.len() - at < 2 {
            return Err(truncated());
        }
        let len: usize = get_u16(data, at) as usize;
        if data.len() - at - 2 < len {
            return Err(truncated());
        }
        let part = vstd::slice::slice_subrange(data, at + 2, at + 2 + len);
        if kind == 64 {
            read_external(part)
        } else {
            let path: String = read_text(part)?;
            Ok(Link::Soft { path })
        }
    } else {
        Err(OxiH5Error::NotImplemented(text(&["link of type ", &kind.to_string()])))
    }
}

/// Read a link message of a file whose addresses have `offset_size` bytes.
pub fn parse_link(data: &[u8], offset_size: u8) -> (r: Result<ParsedLink, OxiH5Error>)
    ensures
        outcome(r) == link_in(data@, offset_size as int),
{
    if data.len() < 2 {
        return Err(truncated());
    }
    if data[0] != 1 {
        return Err(OxiH5Error::Format("unsupported link message version".to_string()));
    }
    let flags: u8 = data[1];
    let mut pos: usize = 2;
    if (flags / 8) % 2 == 1 {
        pos += 1;
    }
    if (flags / 4) % 2 == 1 {
        pos += 8;
    }
    if (flags / 16) % 2 == 1 {
        pos += 1;
    }
    let width: usize = match flags % 4 {
        0 => 1,
        1 => 2,
        2 => 4,
        _ => 8,
    };
    if data.len() < pos + width {
        return Err(truncated());
    }
    let from: usize = pos + width;
    let kind: u8 = if (flags / 8) % 2 == 1 {
        data[2]
    } else {
        0
    };
    let len: u64 = get_le(data, pos, width);
    if len > (data.len() - from) as u64 {
        return Err(truncated());
    }
    let end: usize = from + len as usize;
    let name: String = read_text(vstd::slice::slice_subrange(data, from, end))?;
    let link: Link = read_target(data, end, kind, offset_size)?;
    Ok(ParsedLink { name, link })
}

} // verus!
