//! Object headers read back as the messages that they were made of.

use vstd::prelude::*;
use crate::bytes::{le_bytes, lemma_le_bytes_len, lemma_pow256_values, tag_at, zeros};
use crate::error::ErrorKind;
use crate::global_heap::align8;
use crate::header::{
    behind, body_len, head_len, message_at, messages_at, messages_from, stored_len, MessageModel,
    Style, CONTINUATION,
};
use crate::roundtrip::held::{held, lemma_held_bytes, lemma_held_number, lemma_held_parts};
use crate::write::attr::padded;
use crate::write::format::msg_head;
use crate::write::messages::{
    header_fits, header_image, lemma_header_len, lemma_messages_len, message_image, messages_image,
    messages_len, msg_len, MsgModel,
};

verus! {

/// A written message as it is read.
pub open spec fn read_message(m: MsgModel) -> MessageModel {
    MessageModel { msg_type: m.kind, flags: m.flags, data: m.body }
}

/// Written messages as they are read.
pub open spec fn read_messages(msgs: Seq<MsgModel>) -> Seq<MessageModel> {
    Seq::new(msgs.len(), |i: int| read_message(msgs[i]))
}

/// Whether no message leads to a further block.
pub open spec fn self_contained(msgs: Seq<MsgModel>) -> bool {
    forall|i: int| 0 <= i < msgs.len() ==> (#[trigger] msgs[i]).kind != CONTINUATION
}

/// A message reads back as it was written.
proof fn lemma_message_back(file: Seq<u8>, pos: int, m: MsgModel)
    requires
        held(file, pos, message_image(m)),
        m.body.len() <= u16::MAX,
    ensures
        message_at(file, pos, Style::V1) == read_message(m),
        body_len(file, pos, Style::V1) == m.body.len(),
{
    let n = m.body.len();
    let a = le_bytes(m.kind as nat, 2);
    let b = le_bytes(n, 2);
    let c = seq![m.flags, 0u8, 0u8, 0u8];
    lemma_le_bytes_len(m.kind as nat, 2);
    lemma_le_bytes_len(n, 2);
    lemma_pow256_values();
    let head = msg_head(m.kind as nat, n, m.flags);
    lemma_held_parts(file, pos, head, padded(m.body));
    assert(head =~= a + b + c);
    lemma_held_parts(file, pos, a + b, c);
    lemma_held_parts(file, pos, a, b);
    lemma_held_number(file, pos, m.kind as nat, 2);
    lemma_held_number(file, pos + 2, n, 2);
    lemma_held_bytes(file, pos + 4, c);
    assert(c[0] == file[pos + 4 + 0]);
    let pad = padded(m.body).skip(n as int);
    assert(padded(m.body) =~= m.body + pad);
    lemma_held_parts(file, pos + 8, m.body, pad);
}

/// Where the message at place `i` starts, and that it is there.
proof fn lemma_message_held(file: Seq<u8>, pos: int, msgs: Seq<MsgModel>, i: int)
    requires
        held(file, pos, messages_image(msgs)),
        0 <= i < msgs.len(),
    ensures
        held(file, pos + messages_len(msgs.take(i)), message_image(msgs[i])),
        messages_len(msgs.take(i + 1)) == messages_len(msgs.take(i)) + msg_len(msgs[i].body.len()),
        messages_len(msgs.take(i + 1)) <= messages_len(msgs),
    decreases msgs.len(),
{
    let front = msgs.drop_last();
    lemma_held_parts(file, pos, messages_image(front), message_image(msgs.last()));
    lemma_messages_len(front);
    assert(msgs.take(i + 1).drop_last() =~= msgs.take(i));
    assert(msgs.take(i + 1).last() == msgs[i]);
    if i == msgs.len() - 1 {
        assert(msgs.take(i) =~= front);
        assert(msgs.take(i + 1) =~= msgs);
    } else {
        lemma_message_held(file, pos, front, i);
        assert(front.take(i) =~= msgs.take(i));
        assert(front.take(i + 1) =~= msgs.take(i + 1));
    }
}

/// The messages from place `i` on read back.
proof fn lemma_messages_back(file: Seq<u8>, pos: int, msgs: Seq<MsgModel>, i: int)
    requires
        held(file, pos, messages_image(msgs)),
        header_fits(msgs),
        self_contained(msgs),
        0 <= i <= msgs.len(),
    ensures
        messages_from(
            file,
            pos + messages_len(msgs.take(i)),
            pos + messages_len(msgs),
            Seq::empty(),
            Style::V1,
            (msgs.len() - i) as nat,
        ) == Ok::<Seq<MessageModel>, ErrorKind>(read_messages(msgs).skip(i)),
    decreases msgs.len() - i,
{
    let all = read_messages(msgs);
    if i < msgs.len() {
        lemma_messages_back(file, pos, msgs, i + 1);
        lemma_message_held(file, pos, msgs, i);
        let at = pos + messages_len(msgs.take(i));
        let end = pos + messages_len(msgs);
        let m = msgs[i];
        assert(m.body.len() <= u16::MAX);
        assert(m.kind != CONTINUATION);
        lemma_message_back(file, at, m);
        let len = body_len(file, at, Style::V1);
        let next = pos + messages_len(msgs.take(i + 1));
        assert(at + 8 + align8(len as int) == next);
        assert(behind(at + head_len(Style::V1) + stored_len(len, Style::V1), end) == next);
        assert(seq![all[i]] + all.skip(i + 1) =~= all.skip(i));
    } else {
        assert(all.skip(i) =~= Seq::<MessageModel>::empty());
    }
}

/// Reading gives back what was written: wherever a file holds an object header, its
/// messages are those that it was made of.
pub proof fn law_header_reads_back(file: Seq<u8>, addr: int, msgs: Seq<MsgModel>)
    requires
        held(file, addr, header_image(msgs)),
        header_fits(msgs),
        self_contained(msgs),
    ensures
        messages_at(file, addr) == Ok::<Seq<MessageModel>, ErrorKind>(read_messages(msgs)),
{
    lemma_messages_len(msgs);
    lemma_header_len(msgs);
    lemma_pow256_values();
    let a = seq![1u8, 0u8];
    let b = le_bytes(msgs.len(), 2);
    let c = le_bytes(1, 4);
    let d = le_bytes(messages_len(msgs), 4);
    let e = zeros(4);
    let f = messages_image(msgs);
    lemma_le_bytes_len(msgs.len(), 2);
    lemma_le_bytes_len(1, 4);
    lemma_le_bytes_len(messages_len(msgs), 4);
    lemma_held_parts(file, addr, a + b + c + d + e, f);
    lemma_held_parts(file, addr, a + b + c + d, e);
    lemma_held_parts(file, addr, a + b + c, d);
    lemma_held_parts(file, addr, a + b, c);
    lemma_held_parts(file, addr, a, b);
    lemma_held_number(file, addr + 2, msgs.len(), 2);
    lemma_held_number(file, addr + 8, messages_len(msgs), 4);
    lemma_held_bytes(file, addr, a);
    assert(a[0] == file[addr + 0]);
    assert(!tag_at(file, addr, 'O', 'H', 'D', 'R')) by {
        assert('O' as u8 != 1u8);
    }
    assert(msgs.take(0) =~= Seq::<MsgModel>::empty());
    lemma_messages_back(file, addr + 16, msgs, 0);
    assert(read_messages(msgs).skip(0) =~= read_messages(msgs));
}

} // verus!
