//! Object headers.
//!
//! An object header is a run of messages, each with a type, flags and a body.
//! Version 1 starts with its version, the number of messages (at 2) and the size of
//! its first block (at 8); the block follows 16 bytes on, and a message in it is
//! its type (2), the size of its body (2), its flags, three reserved bytes and the
//! body, padded to a multiple of 8. Version 2 starts with `OHDR`, its version and
//! flags; these tell which optional fields follow and how wide the size of the first
//! block is; a message is its type (1), the size of its body (2), its flags, and
//! where the header's flags say so a creation index (2). A continuation message
//! holds the address and the size of a further block, which in version 2 starts with
//! `OCHK` and ends with a checksum.

use vstd::prelude::*;
use crate::bytes::{copy_range, get_le, get_u16, get_u32, get_u64, has_tag, le_at, tag_at};
use crate::dtype::views;
use crate::error::{outcomes, text, ErrorKind, OxiH5Error};
use crate::global_heap::align8;

verus! {

/// The type of a message that leads to a further block.
pub const CONTINUATION: u16 = 0x0010;

/// One message of an object header.
#[derive(Debug)]
pub struct Message {
    pub msg_type: u16,
    pub flags: u8,
    pub data: Vec<u8>,
}

/// A [`Message`] as a mathematical value.
pub struct MessageModel {
    pub msg_type: u16,
    pub flags: u8,
    pub data: Seq<u8>,
}

impl View for Message {
    type V = MessageModel;

    open spec fn view(&self) -> MessageModel {
        MessageModel { msg_type: self.msg_type, flags: self.flags, data: self.data@ }
    }
}

/// How messages are laid out.
#[derive(Debug, Clone, Copy, PartialEq, Eq, Structural)]
pub enum Style {
    V1,
    /// With a creation index in each message, or without.
    V2 { indexed: bool },
}

/// The bytes of a message before its body.
pub open spec fn head_len(style: Style) -> nat {
    match style {
        Style::V1 => 8,
        Style::V2 { indexed } => if indexed {
            6
        } else {
            4
        },
    }
}

/// The size of the body of the message at `pos`.
pub open spec fn body_len(file: Seq<u8>, pos: int, style: Style) -> nat {
    match style {
        Style::V1 => le_at(file, pos + 2, 2),
        Style::V2 { .. } => le_at(file, pos + 1, 2),
    }
}

/// The bytes of a body with its padding.
pub open spec fn stored_len(len: nat, style: Style) -> nat {
    match style {
        Style::V1 => align8(len as int) as nat,
        Style::V2 { .. } => len,
    }
}

/// The message at `pos`.
pub open spec fn message_at(file: Seq<u8>, pos: int, style: Style) -> MessageModel {
    let from = pos + head_len(style);
    let data = file.subrange(from, from + body_len(file, pos, style));
    match style {
        Style::V1 => MessageModel {
            msg_type: le_at(file, pos, 2) as u16,
            flags: file[pos + 4],
            data,
        },
        Style::V2 { .. } => MessageModel {
            msg_type: file[pos] as u16,
            flags: file[pos + 3],
            data,
        },
    }
}

/// The part of a further block that holds messages, from where to where.
pub open spec fn block_at(file: Seq<u8>, addr: int, len: int, style: Style) -> Result<
    (int, int),
    ErrorKind,
> {
    if addr + len > file.len() {
        Err(ErrorKind::Format)
    } else {
        match style {
            Style::V1 => Ok((addr, addr + len)),
            Style::V2 { .. } => if len < 8 || !tag_at(file, addr, 'O', 'C', 'H', 'K') {
                Err(ErrorKind::Format)
            } else {
                Ok((addr + 4, addr + len - 4))
            },
        }
    }
}

/// Where to go on: at `pos`, but not beyond the end.
pub open spec fn behind(pos: int, end: int) -> int {
    if pos > end {
        end
    } else {
        pos
    }
}

/// The messages from `pos` up to `end` and in the blocks that follow, at most `left`
/// of them.
pub open spec fn messages_from(
    file: Seq<u8>,
    pos: int,
    end: int,
    blocks: Seq<(u64, u64)>,
    style: Style,
    left: nat,
) -> Result<Seq<MessageModel>, ErrorKind>
    decreases left, blocks.len(),
{
    if left == 0 {
        Ok(Seq::empty())
    } else if pos + head_len(style) > end {
        if blocks.len() == 0 {
            Ok(Seq::empty())
        } else {
            match block_at(file, blocks[0].0 as int, blocks[0].1 as int, style) {
                Err(kind) => Err(kind),
                Ok((from, to)) => messages_from(file, from, to, blocks.skip(1), style, left),
            }
        }
    } else {
        let len = body_len(file, pos, style);
        if pos + head_len(style) + len > end {
            Err(ErrorKind::Format)
        } else {
            let message = message_at(file, pos, style);
            if message.msg_type == CONTINUATION && len < 16 {
                Err(ErrorKind::Format)
            } else {
                let more = if message.msg_type == CONTINUATION {
                    blocks.push(
                        (le_at(message.data, 0, 8) as u64, le_at(message.data, 8, 8) as u64),
                    )
                } else {
                    blocks
                };
                match messages_from(
                    file,
                    behind(pos + head_len(style) + stored_len(len, style), end),
                    end,
                    more,
                    style,
                    (left - 1) as nat,
                ) {
                    Err(kind) => Err(kind),
                    Ok(rest) => Ok(seq![message] + rest),
                }
            }
        }
    }
}

/// The width of the size of the first block.
pub open spec fn size_width(flags: u8) -> nat {
    match flags % 4 {
        0 => 1,
        1 => 2,
        2 => 4,
        _ => 8,
    }
}

/// Where the size of the first block of a version 2 header starts, from the header's
/// start: behind the signature, the version, the flags, four times and two limits.
pub open spec fn size_pos(flags: u8) -> nat {
    6 + (if (flags / 32) % 2 == 1 {
        16nat
    } else {
        0
    }) + (if (flags / 16) % 2 == 1 {
        4nat
    } else {
        0
    })
}

/// The messages of the object header at `addr`.
///
/// Version 1 says how many there are. In version 2 there are at most as many as the
/// file has bytes.
pub open spec fn messages_at(file: Seq<u8>, addr: int) -> Result<Seq<MessageModel>, ErrorKind> {
    if addr + 16 > file.len() {
        Err(ErrorKind::Format)
    } else if tag_at(file, addr, 'O', 'H', 'D', 'R') {
        let flags = file[addr + 5];
        let at = addr + size_pos(flags);
        let width = size_width(flags);
        let from = at + width;
        if file[addr + 4] != 2 {
            Err(ErrorKind::UnsupportedHeader(file[addr + 4]))
        } else if from > file.len() || from + le_at(file, at, width) > file.len() {
            Err(ErrorKind::Format)
        } else {
            messages_from(
                file,
                from,
                from + le_at(file, at, width),
                Seq::empty(),
                Style::V2 { indexed: (flags / 4) % 2 == 1 },
                file.len(),
            )
        }
    } else if file[addr] != 1 {
        Err(ErrorKind::UnsupportedHeader(file[addr]))
    } else {
        let len = le_at(file, addr + 8, 4);
        if addr + 16 + len > file.len() {
            Err(ErrorKind::Format)
        } else {
            messages_from(
                file,
                addr + 16,
                addr + 16 + len,
                Seq::empty(),
                Style::V1,
                le_at(file, addr + 2, 2),
            )
        }
    }
}

fn out_of_bounds(addr: u64) -> (r: OxiH5Error)
    ensures
        r@ == ErrorKind::Format,
{
    OxiH5Error::Format(
        text(&["object header at ", &addr.to_string(), " does not fit in the file"]),
    )
}

/// Read the messages from `start` up to `stop` and in the blocks that follow.
fn read_messages(
    file_data: &[u8],
    addr: u64,
    start: usize,
    stop: usize,
    style: Style,
    count: usize,
) -> (r: Result<Vec<Message>, OxiH5Error>)
    requires
        start <= file_data@.len(),
        stop <= file_data@.len(),
    ensures
        outcomes(r) == messages_from(
            file_data@,
            start as int,
            stop as int,
            Seq::empty(),
            style,
            count as nat,
        ),
{
    let ghost goal = messages_from(
        file_data@,
        start as int,
        stop as int,
        Seq::empty(),
        style,
        count as nat,
    );
    let head: usize = match style {
        Style::V1 => 8,
        Style::V2 { indexed } => if indexed {
            6
        } else {
            4
        },
    };
    let mut pos: usize = start;
    let mut end: usize = stop;
    let mut left: usize = count;
    let mut blocks: Vec<(u64, u64)> = Vec::new();
    let mut next: usize = 0;
    let mut messages: Vec<Message> = Vec::new();
    assert(file_data.len() <= usize::MAX);
    proof {
        assert(blocks@.skip(0) =~= Seq::<(u64, u64)>::empty());
        assert(views(messages@) =~= Seq::empty());
    }
    loop
        invariant
            head == head_len(style),
            goal == messages_from(
                file_data@,
                start as int,
                stop as int,
                Seq::empty(),
                style,
                count as nat,
            ),
            pos <= file_data@.len(),
            end <= file_data@.len() <= usize::MAX,
            next <= blocks@.len(),
            blocks@.len() + left <= count,
            match messages_from(
                file_data@,
                pos as int,
                end as int,
                blocks@.skip(next as int),
                style,
                left as nat,
            ) {
                Err(kind) => goal == Err::<Seq<MessageModel>, ErrorKind>(kind),
                Ok(rest) => goal == Ok::<Seq<MessageModel>, ErrorKind>(views(messages@) + rest),
            },
        ensures
            goal == Ok::<Seq<MessageModel>, ErrorKind>(views(messages@)),
        decreases left, blocks@.len() - next,
    {
        let ghost pending = blocks@.skip(next as int);
        let ghost before = views(messages@);
        if left == 0 {
            assert(before + Seq::<MessageModel>::empty() =~= before);
            break;
        }
        if pos > end || end - pos < head {
            if next == blocks.len() {
                assert(before + Seq::<MessageModel>::empty() =~= before);
                break;
            }
            let (block, len): (u64, u64) = blocks[next];
            proof {
                assert(pending[0] == blocks@[next as int]);
                assert(pending.skip(1) =~= blocks@.skip(next + 1));
            }
            let n: usize = file_data.len();
            if block > n as u64 || len > n as u64 - block {
                return Err(out_of_bounds(addr));
            }
            next += 1;
            match style {
                Style::V1 => {
                    pos = block as usize;
                    end = (block + len) as usize;
                },
                Style::V2 { .. } => {
                    if len < 8 || !has_tag(file_data, block as usize, 'O', 'C', 'H', 'K') {
                        return Err(
                            OxiH5Error::Format(
                                text(&["no OCHK signature at ", &block.to_string()]),
                            ),
                        );
                    }
                    pos = block as usize + 4;
                    end = (block + len) as usize - 4;
                },
            }
        } else {
            let (msg_type, flags, len): (u16, u8, usize) = match style {
                Style::V1 => (
                    get_u16(file_data, pos),
                    file_data[pos + 4],
                    get_u16(file_data, pos + 2) as usize,
                ),
                Style::V2 { .. } => (
                    file_data[pos] as u16,
                    file_data[pos + 3],
                    get_u16(file_data, pos + 1) as usize,
                ),
            };
            if end - pos - head < len {
                return Err(out_of_bounds(addr));
            }
            let data: Vec<u8> = copy_range(file_data, pos + head, pos + head + len);
            if msg_type == CONTINUATION {
                if len < 16 {
                    return Err(
                        OxiH5Error::Format(
                            text(&["continuation in the header at ", &addr.to_string(), " is short"]),
                        ),
                    );
                }
                blocks.push((get_u64(&data, 0), get_u64(&data, 8)));
                proof {
                    assert(blocks@.skip(next as int) =~= pending.push(
                        (le_at(data@, 0, 8) as u64, le_at(data@, 8, 8) as u64),
                    ));
                }
            }
            let message = Message { msg_type, flags, data };
            proof {
                assert(message@ == message_at(file_data@, pos as int, style));
            }
            messages.push(message);
            let stored: usize = match style {
                Style::V1 => (len + 7) / 8 * 8,
                Style::V2 { .. } => len,
            };
            pos = if stored > end - pos - head {
                end
            } else {
                pos + head + stored
            };
            left -= 1;
            proof {
                assert(views(messages@) =~= before + seq![message@]);
                let rest = messages_from(
                    file_data@,
                    pos as int,
                    end as int,
                    blocks@.skip(next as int),
                    style,
                    left as nat,
                );
                if rest is Ok {
                    assert(before + (seq![message@] + rest->Ok_0) =~= views(messages@)
                        + rest->Ok_0);
                }
            }
        }
    }
    Ok(messages)
}

/// Read the messages of the object header at `address`.
pub fn parse_messages(file_data: &[u8], address: u64) -> (r: Result<Vec<Message>, OxiH5Error>)
    ensures
        outcomes(r) == messages_at(file_data@, address as int),
{
    let n: usize = file_data.len();
    if n < 16 || address > (n - 16) as u64 {
        return Err(out_of_bounds(address));
    }
    let at: usize = address as usize;
    if has_tag(file_data, at, 'O', 'H', 'D', 'R') {
        if file_data[at + 4] != 2 {
            return Err(OxiH5Error::UnsupportedHeader(file_data[at + 4]));
        }
        let flags: u8 = file_data[at + 5];
        let mut skip: usize = 6;
        if (flags / 32) % 2 == 1 {
            skip += 16;
        }
        if (flags / 16) % 2 == 1 {
            skip += 4;
        }
        let width: usize = match flags % 4 {
            0 => 1,
            1 => 2,
            2 => 4,
            _ => 8,
        };
        if n - at < skip + width {
            return Err(out_of_bounds(address));
        }
        let from: usize = at + skip + width;
        let len: u64 = get_le(file_data, at + skip, width);
        if len > (n - from) as u64 {
            return Err(out_of_bounds(address));
        }
        read_messages(
            file_data,
            address,
            from,
            from + len as usize,
            Style::V2 { indexed: (flags / 4) % 2 == 1 },
            n,
        )
    } else {
        if file_data[at] != 1 {
            return Err(OxiH5Error::UnsupportedHeader(file_data[at]));
        }
        let count: u16 = get_u16(file_data, at + 2);
        let len: u32 = get_u32(file_data, at + 8);
        if len as usize > n - at - 16 {
            return Err(out_of_bounds(address));
        }
        read_messages(
            file_data,
            address,
            at + 16,
            at + 16 + len as usize,
            Style::V1,
            count as usize,
        )
    }
}

} // verus!
