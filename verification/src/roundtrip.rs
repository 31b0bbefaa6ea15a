//! What is written can be read back: each serializer of the container is
//! undone by its parser.

use vstd::prelude::*;
use crate::wire::{le32, le64, le32_value, le64_value, split, lemma_le32_round_trip, lemma_le64_round_trip};
use crate::text::{utf8, text_of, lemma_text_of_encoding};
use crate::id::Id;
use crate::attention::{
    Role, KvModel, StateModel, BatchModel, ErrorModel, Pairs, Block, len32, read_u32, read_u64,
    read_block32, read_block64, block32, block64, words, read_words, encode_pair, encode_pairs,
    parse_pairs, parse_cache, parse_content, parse_origin, parse_header, record_magic,
    batch_magic, distinct_keys, find_key, bind, lemma_find_key_is, encode_opt_id, parse_opt_id,
    encode_states, parse_states,
};

verus! {

/// Concatenation may be regrouped.
pub proof fn lemma_regroup(a: Seq<u8>, b: Seq<u8>, c: Seq<u8>)
    ensures
        (a + b) + c == a + (b + c),
{
    assert((a + b) + c =~= a + (b + c));
}

/// A `u32` is read back from its bytes.
pub proof fn lemma_read_u32(x: u32, rest: Seq<u8>)
    ensures
        read_u32(le32(x) + rest) == Some((x, rest)),
{
    lemma_le32_round_trip(x, rest);
}

/// A `u64` is read back from its bytes.
pub proof fn lemma_read_u64(x: u64, rest: Seq<u8>)
    ensures
        read_u64(le64(x) + rest) == Some((x, rest)),
{
    lemma_le64_round_trip(x, rest);
}

/// A block is read back from its bytes where its length fits four bytes.
pub proof fn lemma_read_block32(b: Seq<u8>, rest: Seq<u8>)
    requires
        b.len() <= u32::MAX,
    ensures
        read_block32(block32(b) + rest) == Block::Whole(b, rest),
{
    reveal(read_block32);
    reveal(block32);
    let n = len32(b.len());
    lemma_read_u32(n, b + rest);
    lemma_regroup(le32(n), b, rest);
    assert((b + rest).take(b.len() as int) =~= b);
    assert((b + rest).skip(b.len() as int) =~= rest);
}

/// A block is read back from its bytes where its length fits eight bytes.
pub proof fn lemma_read_block64(b: Seq<u8>, rest: Seq<u8>)
    requires
        b.len() <= u64::MAX,
    ensures
        read_block64(block64(b) + rest) == Block::Whole(b, rest),
{
    reveal(read_block64);
    reveal(block64);
    let n = b.len() as u64;
    lemma_read_u64(n, b + rest);
    lemma_regroup(le64(n), b, rest);
    assert((b + rest).take(b.len() as int) =~= b);
    assert((b + rest).skip(b.len() as int) =~= rest);
}

/// Words are read back from their bytes.
#[verifier::rlimit(40)]
pub proof fn lemma_read_words(ws: Seq<u32>, rest: Seq<u8>)
    ensures
        read_words(words(ws) + rest, ws.len()) == Some((ws, rest)),
{
    let s = words(ws) + rest;
    let n = ws.len();
    let got = Seq::new(n, |i: int| le32_value(s.skip(4 * i)));
    assert forall|i: int| 0 <= i < n implies got[i] == ws[i] by {
        let t = s.skip(4 * i);
        lemma_le32_round_trip(ws[i], Seq::empty());
        let u = le32(ws[i]) + Seq::<u8>::empty();
        assert((4 * i) / 4 == i && (4 * i) % 4 == 0);
        assert((4 * i + 1) / 4 == i && (4 * i + 1) % 4 == 1);
        assert((4 * i + 2) / 4 == i && (4 * i + 2) % 4 == 2);
        assert((4 * i + 3) / 4 == i && (4 * i + 3) % 4 == 3);
        assert(t[0] == s[4 * i] && s[4 * i] == words(ws)[4 * i]);
        assert(t[1] == s[4 * i + 1] && s[4 * i + 1] == words(ws)[4 * i + 1]);
        assert(t[2] == s[4 * i + 2] && s[4 * i + 2] == words(ws)[4 * i + 2]);
        assert(t[3] == s[4 * i + 3] && s[4 * i + 3] == words(ws)[4 * i + 3]);
        assert(t[0] == u[0] && t[1] == u[1] && t[2] == u[2] && t[3] == u[3]);
    }
    assert(got =~= ws);
    assert(s.skip(4 * (n as int)) =~= rest);
}

/// A cache is read back from its bytes, whatever follows them.
#[verifier::rlimit(40)]
pub proof fn lemma_kv_round_trip(kv: KvModel, rest: Seq<u8>)
    requires
        kv.fits(),
    ensures
        KvModel::parse(kv.encode() + rest) == Some((kv, kv.encode().len() as int)),
{
    let part0 = block32(utf8(kv.model_id));
    let part1 = le32(kv.num_layers);
    let part2 = le32(kv.num_heads);
    let part3 = le32(kv.head_dim);
    let part4 = le32(kv.seq_len);
    let part5 = block32(utf8(kv.quantization));
    let part6 = block64(kv.data);
    let t6 = part6 + rest;
    let t5 = part5 + t6;
    let t4 = part4 + t5;
    let t3 = part3 + t4;
    let t2 = part2 + t3;
    let t1 = part1 + t2;
    let t0 = part0 + t1;
    let s = kv.encode() + rest;
    lemma_regroup(part0 + part1 + part2 + part3 + part4 + part5, part6, rest);
    lemma_regroup(part0 + part1 + part2 + part3 + part4, part5, t6);
    lemma_regroup(part0 + part1 + part2 + part3, part4, t5);
    lemma_regroup(part0 + part1 + part2, part3, t4);
    lemma_regroup(part0 + part1, part2, t3);
    lemma_regroup(part0, part1, t2);
    assert(s == t0);
    lemma_read_block32(utf8(kv.model_id), t1);
    lemma_text_of_encoding(kv.model_id);
    lemma_le32_round_trip(kv.num_layers, t2);
    lemma_le32_round_trip(kv.num_heads, t3);
    lemma_le32_round_trip(kv.head_dim, t4);
    lemma_le32_round_trip(kv.seq_len, t5);
    assert(t1.skip(4) == t2);
    assert(t1.skip(8) =~= t2.skip(4));
    assert(t1.skip(12) =~= t3.skip(4));
    assert(t1.skip(16) =~= t4.skip(4));
    lemma_read_block32(utf8(kv.quantization), t6);
    lemma_text_of_encoding(kv.quantization);
    lemma_read_block64(kv.data, rest);
}

/// The bytes of a list of annotations start with those of the first.
pub proof fn lemma_encode_pairs_front(es: Pairs)
    requires
        es.len() > 0,
    ensures
        encode_pairs(es) == encode_pair(es[0]) + encode_pairs(es.skip(1)),
    decreases es.len(),
{
    if es.len() == 1 {
        assert(es.drop_last() =~= Pairs::empty());
        assert(es.skip(1) =~= Pairs::empty());
        assert(encode_pairs(es) =~= encode_pair(es[0]) + encode_pairs(es.skip(1)));
    } else {
        let front = es.drop_last();
        lemma_encode_pairs_front(front);
        assert(front.skip(1) =~= es.skip(1).drop_last());
        assert(front[0] == es[0]);
        assert(es.skip(1).last() == es.last());
        lemma_regroup(encode_pair(es[0]), encode_pairs(front.skip(1)), encode_pair(es.last()));
    }
}

/// Annotations with distinct keys are read back from their bytes, after
/// whatever was read before them.
#[verifier::rlimit(40)]
pub proof fn lemma_pairs_round_trip(es: Pairs, rest: Seq<u8>, acc: Pairs)
    requires
        distinct_keys(acc + es),
        forall|i: int|
            0 <= i < es.len() ==> utf8(#[trigger] es[i].0).len() <= u32::MAX
                && utf8(es[i].1).len() <= u32::MAX,
    ensures
        parse_pairs(encode_pairs(es) + rest, es.len(), acc) == Ok::<_, ErrorModel>(acc + es),
    decreases es.len(),
{
    if es.len() == 0 {
        assert(acc + es =~= acc);
    } else {
        let (k, v) = es[0];
        let tail = es.skip(1);
        let t2 = encode_pairs(tail) + rest;
        let t1 = block32(utf8(v)) + t2;
        lemma_encode_pairs_front(es);
        lemma_regroup(encode_pair(es[0]), encode_pairs(tail), rest);
        lemma_regroup(block32(utf8(k)), block32(utf8(v)), t2);
        assert(encode_pairs(es) + rest == block32(utf8(k)) + t1);
        lemma_read_block32(utf8(k), t1);
        lemma_text_of_encoding(k);
        lemma_read_block32(utf8(v), t2);
        lemma_text_of_encoding(v);
        assert forall|j: int| 0 <= j < acc.len() implies acc[j].0 != k by {
            assert((acc + es)[j] == acc[j]);
            assert((acc + es)[acc.len() as int] == es[0]);
        }
        lemma_find_key_is(acc, k, acc.len() as int);
        let next = acc.push((k, v));
        assert(bind(acc, k, v) == next);
        assert(next + tail =~= acc + es);
        assert forall|i: int| 0 <= i < tail.len() implies utf8(#[trigger] tail[i].0).len()
            <= u32::MAX && utf8(tail[i].1).len() <= u32::MAX by {
            assert(tail[i] == es[i + 1]);
        }
        lemma_pairs_round_trip(tail, rest, next);
    }
}

/// Eleven parts and a rest, grouped from the left, are the same bytes
/// grouped from the right.
proof fn lemma_regroup_record(
    part0: Seq<u8>,
    part1: Seq<u8>,
    part2: Seq<u8>,
    part3: Seq<u8>,
    part4: Seq<u8>,
    part5: Seq<u8>,
    part6: Seq<u8>,
    part7: Seq<u8>,
    part8: Seq<u8>,
    part9: Seq<u8>,
    part10: Seq<u8>,
    rest: Seq<u8>,
)
    ensures
        part0 + part1 + part2 + part3 + part4 + part5 + part6 + part7 + part8 + part9 + part10
            + rest == part0 + (part1 + (part2 + (part3 + (part4 + (part5 + (part6 + (part7 + (part8
            + (part9 + (part10 + rest)))))))))),
{
    let t10 = part10 + rest;
    let t9 = part9 + t10;
    let t8 = part8 + t9;
    let t7 = part7 + t8;
    let t6 = part6 + t7;
    let t5 = part5 + t6;
    let t4 = part4 + t5;
    let t3 = part3 + t4;
    let t2 = part2 + t3;
    lemma_regroup(part0 + part1 + part2 + part3 + part4 + part5 + part6 + part7 + part8 + part9, part10, rest);
    lemma_regroup(part0 + part1 + part2 + part3 + part4 + part5 + part6 + part7 + part8, part9, t10);
    lemma_regroup(part0 + part1 + part2 + part3 + part4 + part5 + part6 + part7, part8, t9);
    lemma_regroup(part0 + part1 + part2 + part3 + part4 + part5 + part6, part7, t8);
    lemma_regroup(part0 + part1 + part2 + part3 + part4 + part5, part6, t7);
    lemma_regroup(part0 + part1 + part2 + part3 + part4, part5, t6);
    lemma_regroup(part0 + part1 + part2 + part3, part4, t5);
    lemma_regroup(part0 + part1 + part2, part3, t4);
    lemma_regroup(part0 + part1, part2, t3);
    lemma_regroup(part0, part1, t2);
}

/// A record whose parts are read one after the other as the parts of `m`
/// is read as `m`.
proof fn lemma_parse_in_stages(
    s: Seq<u8>,
    rest1: Seq<u8>,
    rest2: Seq<u8>,
    rest3: Seq<u8>,
    rest4: Seq<u8>,
    m: StateModel,
)
    requires
        parse_header(s, record_magic()) == Ok::<_, ErrorModel>(rest1),
        parse_origin(rest1) == Ok::<_, ErrorModel>((m.id, m.timestamp_ms, m.role, rest2)),
        parse_content(rest2) == Ok::<_, ErrorModel>((m.text, m.embedding, rest3)),
        parse_cache(rest3) == Ok::<_, ErrorModel>((m.kv_cache, rest4)),
        match read_u32(rest4) {
            Some((n, rest5)) => parse_pairs(rest5, n as nat, Pairs::empty()) == Ok::<_, ErrorModel>(
                m.metadata,
            ),
            None => false,
        },
    ensures
        StateModel::parse(s) == Ok::<_, ErrorModel>(m),
{
    reveal(StateModel::parse);
}

/// Text and embedding are read back from their bytes.
pub proof fn lemma_content(text: Seq<char>, embedding: Seq<u32>, rest: Seq<u8>)
    requires
        utf8(text).len() <= u32::MAX,
        embedding.len() <= u32::MAX,
    ensures
        parse_content(
            block32(utf8(text)) + (le32(len32(embedding.len())) + (words(embedding) + rest)),
        ) == Ok::<_, ErrorModel>((text, embedding, rest)),
{
    reveal(parse_content);
    let t2 = words(embedding) + rest;
    let t1 = le32(len32(embedding.len())) + t2;
    lemma_read_block32(utf8(text), t1);
    lemma_text_of_encoding(text);
    lemma_read_u32(len32(embedding.len()), t2);
    lemma_read_words(embedding, rest);
}

/// Annotations with distinct keys are read back from their count and
/// their bytes.
pub proof fn lemma_annotations(es: Pairs, rest: Seq<u8>)
    requires
        es.len() <= u32::MAX,
        distinct_keys(es),
        forall|i: int|
            0 <= i < es.len() ==> utf8(#[trigger] es[i].0).len() <= u32::MAX && utf8(
                es[i].1,
            ).len() <= u32::MAX,
    ensures
        match read_u32(le32(len32(es.len())) + (encode_pairs(es) + rest)) {
            Some((n, s)) => parse_pairs(s, n as nat, Pairs::empty()) == Ok::<_, ErrorModel>(es),
            None => false,
        },
{
    lemma_read_u32(len32(es.len()), encode_pairs(es) + rest);
    assert(Pairs::empty() + es =~= es);
    lemma_pairs_round_trip(es, rest, Pairs::empty());
}

/// A valid state is read back from its record, whatever follows the record.
#[verifier::rlimit(40)]
pub proof fn lemma_state_round_trip(m: StateModel, rest: Seq<u8>)
    requires
        m.valid(),
    ensures
        StateModel::parse(m.encode() + rest) == Ok::<_, ErrorModel>(m),
{
    let t9 = le32(len32(m.metadata.len())) + (encode_pairs(m.metadata) + rest);
    let t8 = StateModel::encode_cache(m.kv_cache) + t9;
    let t5 = block32(utf8(m.text)) + (le32(len32(m.embedding.len())) + (words(m.embedding) + t8));
    let t2 = m.id.bytes() + (le64(m.timestamp_ms) + (seq![m.role.code()] + t5));
    let t0 = record_magic() + (le32(1) + t2);
    assert(m.encode() + rest == t0) by {
        reveal(StateModel::encode);
        lemma_regroup_record(
            record_magic(),
            le32(1),
            m.id.bytes(),
            le64(m.timestamp_ms),
            seq![m.role.code()],
            block32(utf8(m.text)),
            le32(len32(m.embedding.len())),
            words(m.embedding),
            StateModel::encode_cache(m.kv_cache),
            le32(len32(m.metadata.len())),
            encode_pairs(m.metadata),
            rest,
        );
    }
    lemma_header(record_magic(), t2);
    lemma_origin(m.id, m.timestamp_ms, m.role, t5);
    lemma_content(m.text, m.embedding, t8);
    lemma_cache(m.kv_cache, t9);
    lemma_annotations(m.metadata, rest);
    lemma_parse_in_stages(t0, t2, t5, t8, t9, m);
}

/// The magic and version 1 are accepted as a header.
pub proof fn lemma_header(magic: Seq<u8>, rest: Seq<u8>)
    requires
        magic.len() == 4,
    ensures
        parse_header(magic + (le32(1) + rest), magic) == Ok::<_, ErrorModel>(rest),
{
    reveal(parse_header);
    let s = magic + (le32(1) + rest);
    lemma_le32_round_trip(1, rest);
    assert(s.take(4) =~= magic);
    assert(s.skip(4) =~= le32(1) + rest);
    assert(s.skip(8) =~= rest);
}

/// Identifier, time and role are read back from their bytes.
pub proof fn lemma_origin(id: Id, timestamp_ms: u64, role: Role, rest: Seq<u8>)
    ensures
        parse_origin(id.bytes() + (le64(timestamp_ms) + (seq![role.code()] + rest))) == Ok::<
            _,
            ErrorModel,
        >((id, timestamp_ms, role, rest)),
{
    reveal(parse_origin);
    let t2 = seq![role.code()] + rest;
    let t1 = le64(timestamp_ms) + t2;
    let s = id.bytes() + t1;
    Id::lemma_of_bytes_bytes(id, t1);
    lemma_le64_round_trip(timestamp_ms, t2);
    assert(s.skip(16) == t1);
    assert(s[24] == t1[8]);
    assert(t1[8] == t2[0]);
    assert(s.skip(25) =~= rest);
}

/// The cache field is read back from its bytes.
pub proof fn lemma_cache(kv: Option<KvModel>, rest: Seq<u8>)
    requires
        match kv {
            Some(kv) => kv.fits() && kv.encode().len() <= u64::MAX,
            None => true,
        },
    ensures
        parse_cache(StateModel::encode_cache(kv) + rest) == Ok::<_, ErrorModel>((kv, rest)),
{
    reveal(parse_cache);
    let s = StateModel::encode_cache(kv) + rest;
    match kv {
        None => {
            assert(s.skip(1) =~= rest);
        },
        Some(k) => {
            lemma_regroup(seq![1u8], block64(k.encode()), rest);
            assert(s.skip(1) =~= block64(k.encode()) + rest);
            lemma_read_block64(k.encode(), rest);
            lemma_kv_round_trip(k, Seq::empty());
            assert(k.encode() + Seq::<u8>::empty() =~= k.encode());
        },
    }
}

/// The bytes of a list of states start with those of the first.
pub proof fn lemma_encode_states_front(ss: Seq<StateModel>)
    requires
        ss.len() > 0,
    ensures
        encode_states(ss) == block64(ss[0].encode()) + encode_states(ss.skip(1)),
    decreases ss.len(),
{
    if ss.len() == 1 {
        assert(ss.drop_last() =~= Seq::<StateModel>::empty());
        assert(ss.skip(1) =~= Seq::<StateModel>::empty());
        assert(encode_states(ss) =~= block64(ss[0].encode()) + encode_states(ss.skip(1)));
    } else {
        let front = ss.drop_last();
        lemma_encode_states_front(front);
        assert(front.skip(1) =~= ss.skip(1).drop_last());
        assert(front[0] == ss[0]);
        assert(ss.skip(1).last() == ss.last());
        lemma_regroup(
            block64(ss[0].encode()),
            encode_states(front.skip(1)),
            block64(ss.last().encode()),
        );
    }
}

/// Valid states are read back from their bytes, after whatever was read
/// before them.
#[verifier::rlimit(40)]
pub proof fn lemma_states_round_trip(ss: Seq<StateModel>, rest: Seq<u8>, acc: Seq<StateModel>)
    requires
        forall|i: int|
            0 <= i < ss.len() ==> (#[trigger] ss[i]).valid() && ss[i].encode().len() <= u64::MAX,
    ensures
        parse_states(encode_states(ss) + rest, ss.len(), acc) == Ok::<_, ErrorModel>(acc + ss),
    decreases ss.len(),
{
    if ss.len() == 0 {
        assert(acc + ss =~= acc);
    } else {
        let tail = ss.skip(1);
        let t1 = encode_states(tail) + rest;
        lemma_encode_states_front(ss);
        lemma_regroup(block64(ss[0].encode()), encode_states(tail), rest);
        assert(ss[0].valid());
        lemma_read_block64(ss[0].encode(), t1);
        lemma_state_round_trip(ss[0], Seq::empty());
        assert(ss[0].encode() + Seq::<u8>::empty() =~= ss[0].encode());
        let next = acc.push(ss[0]);
        assert(next + tail =~= acc + ss);
        assert forall|i: int| 0 <= i < tail.len() implies (#[trigger] tail[i]).valid()
            && tail[i].encode().len() <= u64::MAX by {
            assert(tail[i] == ss[i + 1]);
        }
        lemma_states_round_trip(tail, rest, next);
    }
}

/// An identifier that may be absent is read back from its bytes.
pub proof fn lemma_opt_id(id: Option<Id>, rest: Seq<u8>)
    ensures
        parse_opt_id(encode_opt_id(id) + rest) == Some(Some((id, rest))),
{
    let s = encode_opt_id(id) + rest;
    match id {
        None => {
            assert(s.skip(1) =~= rest);
        },
        Some(i) => {
            Id::lemma_of_bytes_bytes(i, rest);
            lemma_regroup(seq![1u8], i.bytes(), rest);
            assert(s.skip(1) =~= i.bytes() + rest);
            assert(s.skip(17) =~= rest);
        },
    }
}

/// A valid batch is read back from its bytes, whatever follows them: the
/// states in order, and the session and the document as they were.
#[verifier::rlimit(40)]
pub proof fn lemma_batch_round_trip(b: BatchModel, rest: Seq<u8>)
    requires
        b.valid(),
    ensures
        BatchModel::parse(b.encode() + rest) == Ok::<_, ErrorModel>(b),
{
    let part0 = batch_magic();
    let part1 = le32(1);
    let part2 = encode_opt_id(b.session_id);
    let part3 = encode_opt_id(b.document_id);
    let part4 = le32(len32(b.states.len()));
    let part5 = encode_states(b.states);
    let t5 = part5 + rest;
    let t4 = part4 + t5;
    let t3 = part3 + t4;
    let t2 = part2 + t3;
    let t1 = part1 + t2;
    let t0 = part0 + t1;
    lemma_regroup(part0 + part1 + part2 + part3 + part4, part5, rest);
    lemma_regroup(part0 + part1 + part2 + part3, part4, t5);
    lemma_regroup(part0 + part1 + part2, part3, t4);
    lemma_regroup(part0 + part1, part2, t3);
    lemma_regroup(part0, part1, t2);
    assert(b.encode() + rest == t0);
    lemma_header(part0, t2);
    lemma_opt_id(b.session_id, t3);
    lemma_opt_id(b.document_id, t4);
    lemma_read_u32(len32(b.states.len()), t5);
    lemma_states_round_trip(b.states, rest, Seq::empty());
    assert(Seq::<StateModel>::empty() + b.states =~= b.states);
}

} // verus!
