//! Superblocks and object headers: what opens a file, and what an object is made of.

use vstd::prelude::*;
use crate::bytes::{
    le_at, le_bytes, lemma_le_bytes_len, lemma_pow256_values, pow256, tag_at, zeros,
};
use crate::error::{outcomes, ErrorKind, OxiH5Error};
use crate::header::{
    behind, block_at, body_len, head_len, message_at, messages_from, parse_messages, size_pos,
    size_width, stored_len, Message, MessageModel, Style, CONTINUATION,
};
use crate::roundtrip::held::{held, lemma_held_bytes, lemma_held_number, lemma_held_parts};
use crate::superblock::{signature, Superblock};
use crate::write::attr::padded;

verus! {

/// A superblock of version 2 or 3: the signature, the version, the sizes of offsets and
/// lengths, flags, four addresses, a checksum.
pub open spec fn late_superblock(
    version: u8,
    offsets: u8,
    lengths: u8,
    flags: u8,
    base: u64,
    extension: u64,
    end: u64,
    root: u64,
    checksum: nat,
) -> Seq<u8> {
    let w = offsets as nat;
    seq![0x89u8, 0x48u8, 0x44u8, 0x46u8, 0x0du8, 0x0au8, 0x1au8, 0x0au8, version, offsets, lengths,
        flags] + le_bytes(base as nat, w) + le_bytes(extension as nat, w) + le_bytes(end as nat, w)
        + le_bytes(root as nat, w) + le_bytes(checksum, 4)
}

/// A file with a superblock of version 2 or 3 is opened with its sizes, its base address
/// and the address of its root group.
pub proof fn law_late_superblock(
    data: &[u8],
    version: u8,
    offsets: u8,
    lengths: u8,
    flags: u8,
    base: u64,
    extension: u64,
    end: u64,
    root: u64,
    checksum: nat,
    r: Result<Superblock, OxiH5Error>,
)
    requires
        version == 2 || version == 3,
        offsets == 1 || offsets == 2 || offsets == 4 || offsets == 8,
        base < pow256(offsets as nat),
        root < pow256(offsets as nat),
        held(
            data@,
            0,
            late_superblock(
                version,
                offsets,
                lengths,
                flags,
                base,
                extension,
                end,
                root,
                checksum,
            ),
        ),
        call_ensures(crate::superblock::parse, (data,), r),
    ensures
        r == Ok::<Superblock, OxiH5Error>(
            Superblock {
                size_of_offsets: offsets,
                size_of_lengths: lengths,
                base_address: base,
                root_object_header_address: root,
            },
        ),
{
    let s = data@;
    let w = offsets as nat;
    let head = seq![0x89u8, 0x48u8, 0x44u8, 0x46u8, 0x0du8, 0x0au8, 0x1au8, 0x0au8, version,
        offsets, lengths, flags];
    let a = le_bytes(base as nat, w);
    let b = le_bytes(extension as nat, w);
    let c = le_bytes(end as nat, w);
    let d = le_bytes(root as nat, w);
    lemma_le_bytes_len(base as nat, w);
    lemma_le_bytes_len(extension as nat, w);
    lemma_le_bytes_len(end as nat, w);
    lemma_le_bytes_len(root as nat, w);
    lemma_held_parts(s, 0, head + a + b + c + d, le_bytes(checksum, 4));
    lemma_held_parts(s, 0, head + a + b + c, d);
    lemma_held_parts(s, 0, head + a + b, c);
    lemma_held_parts(s, 0, head + a, b);
    lemma_held_parts(s, 0, head, a);
    lemma_held_bytes(s, 0, head);
    assert(head[8] == s[8] && head[9] == s[9] && head[10] == s[10]);
    assert(s.subrange(0, 8) =~= signature()) by {
        assert forall|i: int| 0 <= i < 8 implies s[i] == #[trigger] signature()[i] by {
            assert(head[i] == s[0 + i]);
            assert(head[i] == signature()[i]);
        }
    }
    lemma_held_number(s, 12, base as nat, w);
    lemma_held_number(s, (12 + 3 * w) as int, root as nat, w);
}

/// A superblock of version 0: the signature, the version, what is not needed, the sizes of
/// offsets and lengths, more that is not needed, the base address, three addresses, the
/// link name offset and the object header of the root group, and the rest of its entry.
pub open spec fn early_superblock(
    a: Seq<u8>,
    b: Seq<u8>,
    base: u64,
    c: Seq<u8>,
    root: u64,
    rest: Seq<u8>,
) -> Seq<u8> {
    seq![0x89u8, 0x48u8, 0x44u8, 0x46u8, 0x0du8, 0x0au8, 0x1au8, 0x0au8, 0u8] + a + seq![8u8, 8u8]
        + b + le_bytes(base as nat, 8) + c + le_bytes(root as nat, 8) + rest
}

/// A file with a superblock of version 0 is opened with its base address and the address
/// of its root group.
pub proof fn law_early_superblock(
    data: &[u8],
    a: Seq<u8>,
    b: Seq<u8>,
    base: u64,
    c: Seq<u8>,
    root: u64,
    rest: Seq<u8>,
    r: Result<Superblock, OxiH5Error>,
)
    requires
        a.len() == 4,
        b.len() == 9,
        c.len() == 32,
        rest.len() == 24,
        held(data@, 0, early_superblock(a, b, base, c, root, rest)),
        call_ensures(crate::superblock::parse, (data,), r),
    ensures
        r == Ok::<Superblock, OxiH5Error>(
            Superblock {
                size_of_offsets: 8,
                size_of_lengths: 8,
                base_address: base,
                root_object_header_address: root,
            },
        ),
{
    let s = data@;
    lemma_pow256_values();
    let head = seq![0x89u8, 0x48u8, 0x44u8, 0x46u8, 0x0du8, 0x0au8, 0x1au8, 0x0au8, 0u8];
    let sizes = seq![8u8, 8u8];
    let x = le_bytes(base as nat, 8);
    let y = le_bytes(root as nat, 8);
    lemma_le_bytes_len(base as nat, 8);
    lemma_le_bytes_len(root as nat, 8);
    lemma_held_parts(s, 0, head + a + sizes + b + x + c + y, rest);
    lemma_held_parts(s, 0, head + a + sizes + b + x + c, y);
    lemma_held_parts(s, 0, head + a + sizes + b + x, c);
    lemma_held_parts(s, 0, head + a + sizes + b, x);
    lemma_held_parts(s, 0, head + a + sizes, b);
    lemma_held_parts(s, 0, head + a, sizes);
    lemma_held_parts(s, 0, head, a);
    lemma_held_bytes(s, 0, head);
    assert(head[8] == s[8]);
    assert(s.subrange(0, 8) =~= signature()) by {
        assert forall|i: int| 0 <= i < 8 implies s[i] == #[trigger] signature()[i] by {
            assert(head[i] == s[0 + i]);
            assert(head[i] == signature()[i]);
        }
    }
    lemma_held_bytes(s, 13, sizes);
    assert(sizes[0] == s[13] && sizes[1] == s[14]);
    lemma_held_number(s, 24, base as nat, 8);
    lemma_held_number(s, 64, root as nat, 8);
}

/// A message as it is stored: in version 1 its type, its length, flags, three bytes, and
/// its body padded to a multiple of 8; in version 2 its type, its length, flags, its
/// creation index where there is one, and its body.
pub open spec fn stored_message(m: MessageModel, style: Style) -> Seq<u8> {
    match style {
        Style::V1 => le_bytes(m.msg_type as nat, 2) + le_bytes(m.data.len(), 2) + seq![m.flags]
            + zeros(3) + padded(m.data),
        Style::V2 { indexed } => seq![m.msg_type as u8] + le_bytes(m.data.len(), 2) + seq![m.flags]
            + (if indexed {
            zeros(2)
        } else {
            Seq::empty()
        }) + m.data,
    }
}

/// Messages, one after the other.
pub open spec fn stored_messages(messages: Seq<MessageModel>, style: Style) -> Seq<u8>
    decreases messages.len(),
{
    if messages.len() == 0 {
        Seq::empty()
    } else {
        stored_message(messages[0], style) + stored_messages(messages.skip(1), style)
    }
}

/// Whether a message fits its fields.
pub open spec fn message_fits(m: MessageModel, style: Style) -> bool {
    &&& m.data.len() <= u16::MAX
    &&& style is V2 ==> m.msg_type <= u8::MAX
    &&& m.msg_type == CONTINUATION ==> m.data.len() >= 16
}

/// The blocks that the continuations among messages lead to.
pub open spec fn continued(messages: Seq<MessageModel>) -> Seq<(u64, u64)>
    decreases messages.len(),
{
    if messages.len() == 0 {
        Seq::empty()
    } else if messages[0].msg_type == CONTINUATION {
        seq![(le_at(messages[0].data, 0, 8) as u64, le_at(messages[0].data, 8, 8) as u64)]
            + continued(messages.skip(1))
    } else {
        continued(messages.skip(1))
    }
}

/// What is read of one message.
proof fn lemma_message(file: Seq<u8>, pos: int, m: MessageModel, style: Style)
    requires
        message_fits(m, style),
        held(file, pos, stored_message(m, style)),
    ensures
        body_len(file, pos, style) == m.data.len(),
        message_at(file, pos, style) == m,
        stored_message(m, style).len() == head_len(style) + stored_len(m.data.len(), style),
{
    lemma_pow256_values();
    lemma_le_bytes_len(m.data.len(), 2);
    match style {
        Style::V1 => {
            let a = le_bytes(m.msg_type as nat, 2);
            let b = le_bytes(m.data.len(), 2);
            let c = seq![m.flags];
            let d = zeros(3);
            lemma_le_bytes_len(m.msg_type as nat, 2);
            lemma_held_parts(file, pos, a + b + c + d, padded(m.data));
            lemma_held_parts(file, pos, a + b + c, d);
            lemma_held_parts(file, pos, a + b, c);
            lemma_held_parts(file, pos, a, b);
            lemma_held_number(file, pos, m.msg_type as nat, 2);
            lemma_held_number(file, pos + 2, m.data.len(), 2);
            lemma_held_bytes(file, pos + 4, c);
            assert(c[0] == file[pos + 4 + 0]);
            let rest = padded(m.data).skip(m.data.len() as int);
            assert(padded(m.data) =~= m.data + rest);
            lemma_held_parts(file, pos + 8, m.data, rest);
        },
        Style::V2 { indexed } => {
            let a = seq![m.msg_type as u8];
            let b = le_bytes(m.data.len(), 2);
            let c = seq![m.flags];
            let d = if indexed {
                zeros(2)
            } else {
                Seq::<u8>::empty()
            };
            lemma_held_parts(file, pos, a + b + c + d, m.data);
            lemma_held_parts(file, pos, a + b + c, d);
            lemma_held_parts(file, pos, a + b, c);
            lemma_held_parts(file, pos, a, b);
            lemma_held_bytes(file, pos, a);
            assert(a[0] == file[pos + 0]);
            lemma_held_number(file, pos + 1, m.data.len(), 2);
            lemma_held_bytes(file, pos + 3, c);
            assert(c[0] == file[pos + 3 + 0]);
        },
    }
}

/// The messages of a block, and then those of the blocks that follow.
proof fn lemma_block(
    file: Seq<u8>,
    pos: int,
    end: int,
    blocks: Seq<(u64, u64)>,
    style: Style,
    left: nat,
    messages: Seq<MessageModel>,
)
    requires
        forall|i: int| 0 <= i < messages.len() ==> message_fits(#[trigger] messages[i], style),
        held(file, pos, stored_messages(messages, style)),
        end == pos + stored_messages(messages, style).len(),
        messages.len() <= left,
    ensures
        messages_from(file, pos, end, blocks, style, left) == match messages_from(
            file,
            end,
            end,
            blocks + continued(messages),
            style,
            (left - messages.len()) as nat,
        ) {
            Ok(rest) => Ok::<Seq<MessageModel>, ErrorKind>(messages + rest),
            Err(kind) => Err(kind),
        },
    decreases messages.len(),
{
    if messages.len() > 0 {
        let m = messages[0];
        let later = messages.skip(1);
        let a = stored_message(m, style);
        let b = stored_messages(later, style);
        assert(message_fits(messages[0], style));
        lemma_held_parts(file, pos, a, b);
        lemma_message(file, pos, m, style);
        assert forall|i: int| 0 <= i < later.len() implies message_fits(
            #[trigger] later[i],
            style,
        ) by {
            assert(later[i] == messages[i + 1]);
        }
        let more = if m.msg_type == CONTINUATION {
            blocks.push((le_at(m.data, 0, 8) as u64, le_at(m.data, 8, 8) as u64))
        } else {
            blocks
        };
        lemma_block(file, pos + a.len(), end, more, style, (left - 1) as nat, later);
        assert(more + continued(later) =~= blocks + continued(messages));
        assert(m.data.len() <= stored_len(m.data.len(), style));
        assert(behind(pos + a.len(), end) == pos + a.len());
        let next = messages_from(
            file,
            end,
            end,
            blocks + continued(messages),
            style,
            (left - messages.len()) as nat,
        );
        if let Ok(rest) = next {
            assert(seq![m] + (later + rest) =~= messages + rest);
        }
    } else {
        assert(blocks + continued(messages) =~= blocks);
        if let Ok(rest) = messages_from(file, end, end, blocks, style, left) {
            assert(messages + rest =~= rest);
        }
    }
}

/// Whether messages are stored at `addr` as a further block of `len` bytes: in version 2
/// between `OCHK` and a checksum.
pub open spec fn holds_block(
    file: Seq<u8>,
    addr: u64,
    len: u64,
    messages: Seq<MessageModel>,
    checksum: nat,
    style: Style,
) -> bool {
    match style {
        Style::V1 => {
            &&& len == stored_messages(messages, style).len()
            &&& held(file, addr as int, stored_messages(messages, style))
        },
        Style::V2 { .. } => {
            let image = seq!['O' as u8, 'C' as u8, 'H' as u8, 'K' as u8] + stored_messages(
                messages,
                style,
            ) + le_bytes(checksum, 4);
            &&& len == image.len()
            &&& held(file, addr as int, image)
        },
    }
}

proof fn lemma_two_blocks(
    file: Seq<u8>,
    pos: int,
    style: Style,
    left: nat,
    first: Seq<MessageModel>,
    second: Seq<MessageModel>,
    addr: u64,
    len: u64,
    checksum: nat,
)
    requires
        forall|i: int| 0 <= i < first.len() ==> message_fits(#[trigger] first[i], style),
        forall|i: int| 0 <= i < second.len() ==> message_fits(#[trigger] second[i], style),
        held(file, pos, stored_messages(first, style)),
        continued(first) == seq![(addr, len)],
        continued(second).len() == 0,
        holds_block(file, addr, len, second, checksum, style),
        first.len() + second.len() <= left,
        second.len() > 0,
    ensures
        messages_from(
            file,
            pos,
            pos + stored_messages(first, style).len(),
            Seq::empty(),
            style,
            left,
        ) == Ok::<Seq<MessageModel>, ErrorKind>(first + second),
{
    let end = pos + stored_messages(first, style).len();
    lemma_block(file, pos, end, Seq::empty(), style, left, first);
    let blocks = Seq::<(u64, u64)>::empty() + continued(first);
    assert(blocks =~= seq![(addr, len)]);
    let rest = (left - first.len()) as nat;
    let body = stored_messages(second, style);
    let from = match style {
        Style::V1 => addr as int,
        Style::V2 { .. } => addr + 4,
    };
    if style is V2 {
        let tag = seq!['O' as u8, 'C' as u8, 'H' as u8, 'K' as u8];
        lemma_le_bytes_len(checksum, 4);
        lemma_held_parts(file, addr as int, tag + body, le_bytes(checksum, 4));
        lemma_held_parts(file, addr as int, tag, body);
        lemma_held_bytes(file, addr as int, tag);
        let p = addr as int;
        assert(tag[0] == file[p + 0] && tag[1] == file[p + 1] && tag[2] == file[p + 2] && tag[3]
            == file[p + 3]);
    }
    let to = from + body.len();
    assert(block_at(file, addr as int, len as int, style) == Ok::<(int, int), ErrorKind>(
        (from, to),
    ));
    assert(blocks.skip(1) =~= Seq::<(u64, u64)>::empty());
    lemma_block(file, from, to, Seq::empty(), style, rest, second);
    assert(Seq::<(u64, u64)>::empty() + continued(second) =~= Seq::<(u64, u64)>::empty());
    let last = (rest - second.len()) as nat;
    assert(messages_from(file, to, to, Seq::empty(), style, last) == Ok::<
        Seq<MessageModel>,
        ErrorKind,
    >(Seq::empty()));
    assert(second + Seq::<MessageModel>::empty() =~= second);
    assert(messages_from(file, end, end, blocks, style, rest) == Ok::<
        Seq<MessageModel>,
        ErrorKind,
    >(second));
}

/// An object header of version 1 is read as its messages: those behind it, and then those
/// in the block that a continuation among them leads to.
pub proof fn law_early_header(
    file: &[u8],
    addr: u64,
    references: nat,
    first: Seq<MessageModel>,
    second: Seq<MessageModel>,
    block: u64,
    len: u64,
    r: Result<Vec<Message>, OxiH5Error>,
)
    requires
        forall|i: int| 0 <= i < first.len() ==> message_fits(#[trigger] first[i], Style::V1),
        forall|i: int| 0 <= i < second.len() ==> message_fits(#[trigger] second[i], Style::V1),
        first.len() + second.len() <= u16::MAX,
        stored_messages(first, Style::V1).len() <= u32::MAX,
        held(
            file@,
            addr as int,
            seq![1u8, 0u8] + le_bytes(first.len() + second.len(), 2) + le_bytes(references, 4)
                + le_bytes(stored_messages(first, Style::V1).len(), 4) + zeros(4)
                + stored_messages(first, Style::V1),
        ),
        second.len() == 0 && continued(first).len() == 0 || second.len() > 0 && continued(first)
            == seq![(block, len)] && continued(second).len() == 0 && holds_block(
            file@,
            block,
            len,
            second,
            0,
            Style::V1,
        ),
        call_ensures(parse_messages, (file, addr), r),
    ensures
        outcomes(r) == Ok::<Seq<MessageModel>, ErrorKind>(first + second),
{
    let s = file@;
    let p = addr as int;
    let n = first.len() + second.len();
    let body = stored_messages(first, Style::V1);
    lemma_pow256_values();
    let head = seq![1u8, 0u8];
    let a = le_bytes(n, 2);
    let b = le_bytes(references, 4);
    let c = le_bytes(body.len(), 4);
    lemma_le_bytes_len(n, 2);
    lemma_le_bytes_len(references, 4);
    lemma_le_bytes_len(body.len(), 4);
    lemma_held_parts(s, p, head + a + b + c + zeros(4), body);
    lemma_held_parts(s, p, head + a + b + c, zeros(4));
    lemma_held_parts(s, p, head + a + b, c);
    lemma_held_parts(s, p, head + a, b);
    lemma_held_parts(s, p, head, a);
    lemma_held_bytes(s, p, head);
    assert(head[0] == s[p + 0]);
    lemma_held_number(s, p + 2, n, 2);
    lemma_held_number(s, p + 8, body.len(), 4);
    assert(!tag_at(s, p, 'O', 'H', 'D', 'R'));
    lemma_read(s, p + 16, Style::V1, n, first, second, block, len, 0);
}

proof fn lemma_read(
    file: Seq<u8>,
    pos: int,
    style: Style,
    left: nat,
    first: Seq<MessageModel>,
    second: Seq<MessageModel>,
    addr: u64,
    len: u64,
    checksum: nat,
)
    requires
        forall|i: int| 0 <= i < first.len() ==> message_fits(#[trigger] first[i], style),
        forall|i: int| 0 <= i < second.len() ==> message_fits(#[trigger] second[i], style),
        held(file, pos, stored_messages(first, style)),
        second.len() == 0 && continued(first).len() == 0 || second.len() > 0 && continued(first)
            == seq![(addr, len)] && continued(second).len() == 0 && holds_block(
            file,
            addr,
            len,
            second,
            checksum,
            style,
        ),
        first.len() + second.len() <= left,
    ensures
        messages_from(
            file,
            pos,
            pos + stored_messages(first, style).len(),
            Seq::empty(),
            style,
            left,
        ) == Ok::<Seq<MessageModel>, ErrorKind>(first + second),
{
    if second.len() > 0 {
        lemma_two_blocks(file, pos, style, left, first, second, addr, len, checksum);
    } else {
        let end = pos + stored_messages(first, style).len();
        lemma_block(file, pos, end, Seq::empty(), style, left, first);
        assert(Seq::<(u64, u64)>::empty() + continued(first) =~= Seq::<(u64, u64)>::empty());
        assert(first + Seq::<MessageModel>::empty() =~= first + second);
    }
}

/// The flags of a version 2 header: how long the size of its messages is, whether messages
/// have creation indexes, and whether limits and times are there.
pub open spec fn header_flags(code: int, indexed: bool, limits: bool, times: bool) -> int {
    code + (if indexed {
        4int
    } else {
        0
    }) + (if limits {
        16int
    } else {
        0
    }) + (if times {
        32int
    } else {
        0
    })
}

proof fn lemma_header_flags(code: int, indexed: bool, limits: bool, times: bool)
    requires
        0 <= code <= 3,
    ensures
        ({
            let v = header_flags(code, indexed, limits, times) as u8;
            &&& v == header_flags(code, indexed, limits, times)
            &&& (v / 4) % 2 == 1 <==> indexed
            &&& (v / 16) % 2 == 1 <==> limits
            &&& (v / 32) % 2 == 1 <==> times
            &&& v % 4 == code
        }),
{
}

/// What stands before the messages of a version 2 header: `OHDR`, version 2, flags, the
/// times, the limits, and the number of bytes of the messages in `2^code` bytes.
pub open spec fn late_front(
    code: int,
    indexed: bool,
    limits: Option<Seq<u8>>,
    times: Option<Seq<u8>>,
    size: nat,
) -> Seq<u8> {
    let lengths: nat = if code == 0 {
        1
    } else if code == 1 {
        2
    } else if code == 2 {
        4
    } else {
        8
    };
    seq![
        'O' as u8,
        'H' as u8,
        'D' as u8,
        'R' as u8,
        2u8,
        header_flags(code, indexed, limits is Some, times is Some) as u8,
    ] + (match times {
        Some(t) => t,
        None => Seq::empty(),
    }) + (match limits {
        Some(l) => l,
        None => Seq::empty(),
    }) + le_bytes(size, lengths)
}

/// An object header of version 2 is read as its messages: those behind it, and then those
/// in the block that a continuation among them leads to.
pub proof fn law_late_header(
    file: &[u8],
    addr: u64,
    code: int,
    indexed: bool,
    limits: Option<Seq<u8>>,
    times: Option<Seq<u8>>,
    first: Seq<MessageModel>,
    second: Seq<MessageModel>,
    block: u64,
    len: u64,
    checksum: nat,
    r: Result<Vec<Message>, OxiH5Error>,
)
    requires
        0 <= code <= 3,
        limits is Some ==> limits->0.len() == 4,
        times is Some ==> times->0.len() == 16,
        forall|i: int|
            0 <= i < first.len() ==> message_fits(#[trigger] first[i], Style::V2 { indexed }),
        forall|i: int|
            0 <= i < second.len() ==> message_fits(#[trigger] second[i], Style::V2 { indexed }),
        stored_messages(first, Style::V2 { indexed }).len() <= if code == 0 {
            0xffint
        } else if code == 1 {
            0xffffint
        } else {
            0xffff_ffffint
        },
        held(
            file@,
            addr as int,
            late_front(
                code,
                indexed,
                limits,
                times,
                stored_messages(first, Style::V2 { indexed }).len(),
            ) + stored_messages(first, Style::V2 { indexed }),
        ),
        addr + 16 <= file@.len(),
        first.len() + second.len() <= file@.len(),
        second.len() == 0 && continued(first).len() == 0 || second.len() > 0 && continued(first)
            == seq![(block, len)] && continued(second).len() == 0 && holds_block(
            file@,
            block,
            len,
            second,
            checksum,
            Style::V2 { indexed },
        ),
        call_ensures(parse_messages, (file, addr), r),
    ensures
        outcomes(r) == Ok::<Seq<MessageModel>, ErrorKind>(first + second),
{
    let s = file@;
    let p = addr as int;
    let style = Style::V2 { indexed };
    let body = stored_messages(first, style);
    let front = late_front(code, indexed, limits, times, body.len());
    lemma_held_parts(s, p, front, body);
    lemma_late_front(s, p, code, indexed, limits, times, body.len());
    lemma_read(s, p + front.len(), style, s.len(), first, second, block, len, checksum);
}

proof fn lemma_late_front(
    s: Seq<u8>,
    p: int,
    code: int,
    indexed: bool,
    limits: Option<Seq<u8>>,
    times: Option<Seq<u8>>,
    size: nat,
)
    requires
        0 <= code <= 3,
        limits is Some ==> limits->0.len() == 4,
        times is Some ==> times->0.len() == 16,
        size <= if code == 0 {
            0xffint
        } else if code == 1 {
            0xffffint
        } else {
            0xffff_ffffint
        },
        held(s, p, late_front(code, indexed, limits, times, size)),
    ensures
        tag_at(s, p, 'O', 'H', 'D', 'R'),
        s[p + 4] == 2,
        (s[p + 5] / 4) % 2 == 1 <==> indexed,
        ({
            let at = p + size_pos(s[p + 5]);
            let width = size_width(s[p + 5]);
            &&& late_front(code, indexed, limits, times, size).len() == at + width - p
            &&& le_at(s, at, width) == size
        }),
{
    let lengths: nat = if code == 0 {
        1
    } else if code == 1 {
        2
    } else if code == 2 {
        4
    } else {
        8
    };
    lemma_pow256_values();
    lemma_header_flags(code, indexed, limits is Some, times is Some);
    let head = seq![
        'O' as u8,
        'H' as u8,
        'D' as u8,
        'R' as u8,
        2u8,
        header_flags(code, indexed, limits is Some, times is Some) as u8,
    ];
    let a = match times {
        Some(t) => t,
        None => Seq::<u8>::empty(),
    };
    let b = match limits {
        Some(l) => l,
        None => Seq::<u8>::empty(),
    };
    let c = le_bytes(size, lengths);
    lemma_le_bytes_len(size, lengths);
    lemma_held_parts(s, p, head + a + b, c);
    lemma_held_parts(s, p, head + a, b);
    lemma_held_parts(s, p, head, a);
    lemma_held_bytes(s, p, head);
    assert(head[0] == s[p + 0] && head[1] == s[p + 1] && head[2] == s[p + 2] && head[3] == s[p + 3]
        && head[4] == s[p + 4] && head[5] == s[p + 5]);
    lemma_held_number(s, p + 6 + a.len() + b.len(), size, lengths);
}

} // verus!
