//! Attention states and their binary container.
//!
//! A record opens with the magic `ATTN` and a version, a batch with `ATNB`.
//! All integers are little-endian except the bytes of an identifier; texts
//! and blocks carry their length in front. The parsers are stated as
//! functions from bytes to a value or an error, and the serializers as
//! functions from a value to bytes, so that one can be held against the
//! other.

use vstd::prelude::*;
use crate::wire::{le32, le64, le32_value, le64_value, split, put_u32, put_u64, put_bytes, Reader};
use crate::text::{
    utf8, text_of, lowercase_of, decode, same_text, bytes_of, decimal_text, push_decimal,
};
use crate::id::{Id, unix_millis};
use vstd::string::StringExecFns;

verus! {

/// Who speaks in a conversation.
#[derive(Debug, Clone, Copy, PartialEq, Eq, Structural)]
pub enum Role {
    /// The system prompt.
    System,
    /// A message of the user.
    User,
    /// A response of the assistant.
    Assistant,
    /// A tool or function call.
    Tool,
    /// Context that was retrieved earlier.
    Context,
}

impl Role {
    /// The name of the role.
    pub open spec fn name(self) -> Seq<char> {
        match self {
            Role::System => "system"@,
            Role::User => "user"@,
            Role::Assistant => "assistant"@,
            Role::Tool => "tool"@,
            Role::Context => "context"@,
        }
    }

    /// The role that a lowercase name stands for.
    pub open spec fn of_name(name: Seq<char>) -> Option<Role> {
        if name == "system"@ {
            Some(Role::System)
        } else if name == "user"@ {
            Some(Role::User)
        } else if name == "assistant"@ {
            Some(Role::Assistant)
        } else if name == "tool"@ || name == "function"@ {
            Some(Role::Tool)
        } else if name == "context"@ || name == "retrieved"@ {
            Some(Role::Context)
        } else {
            None
        }
    }

    /// The byte that stands for the role in a record.
    pub open spec fn code(self) -> u8 {
        match self {
            Role::System => 0,
            Role::User => 1,
            Role::Assistant => 2,
            Role::Tool => 3,
            Role::Context => 4,
        }
    }

    /// The role that a byte stands for.
    pub open spec fn of_code(b: u8) -> Option<Role> {
        if b == 0 {
            Some(Role::System)
        } else if b == 1 {
            Some(Role::User)
        } else if b == 2 {
            Some(Role::Assistant)
        } else if b == 3 {
            Some(Role::Tool)
        } else if b == 4 {
            Some(Role::Context)
        } else {
            None
        }
    }

    /// The name of the role.
    pub fn as_str(&self) -> (s: &'static str)
        ensures
            s@ == self.name(),
    {
        match self {
            Role::System => "system",
            Role::User => "user",
            Role::Assistant => "assistant",
            Role::Tool => "tool",
            Role::Context => "context",
        }
    }

    /// The role that `name` stands for, where `name` is already in lowercase.
    pub fn from_lowercase(name: &str) -> (r: Option<Role>)
        ensures
            r == Role::of_name(name@),
    {
        if same_text(name, "system") {
            Some(Role::System)
        } else if same_text(name, "user") {
            Some(Role::User)
        } else if same_text(name, "assistant") {
            Some(Role::Assistant)
        } else if same_text(name, "tool") || same_text(name, "function") {
            Some(Role::Tool)
        } else if same_text(name, "context") || same_text(name, "retrieved") {
            Some(Role::Context)
        } else {
            None
        }
    }

    /// The role that `s` stands for, in any mix of upper and lower case.
    pub fn from_str(s: &str) -> (r: Option<Role>)
        ensures
            r == Role::of_name(lowercase_of(s@)),
    {
        let lower = s.to_lowercase();
        Role::from_lowercase(lower.as_str())
    }

    /// The byte that stands for the role in a record.
    pub fn to_byte(&self) -> (b: u8)
        ensures
            b == self.code(),
            Role::of_code(b) == Some(*self),
    {
        match self {
            Role::System => 0,
            Role::User => 1,
            Role::Assistant => 2,
            Role::Tool => 3,
            Role::Context => 4,
        }
    }

    /// The role that a byte stands for; bytes above four stand for none.
    pub fn from_byte(b: u8) -> (r: Option<Role>)
        ensures
            r == Role::of_code(b),
    {
        match b {
            0 => Some(Role::System),
            1 => Some(Role::User),
            2 => Some(Role::Assistant),
            3 => Some(Role::Tool),
            4 => Some(Role::Context),
            _ => None,
        }
    }
}

/// A length as it is written into a four-byte field.
pub open spec fn len32(n: nat) -> u32 {
    (n % 0x1_0000_0000) as u32
}

/// A little-endian `u32` at the front of `s`, and what follows it.
pub open spec fn read_u32(s: Seq<u8>) -> Option<(u32, Seq<u8>)> {
    if s.len() >= 4 {
        Some((le32_value(s), s.skip(4)))
    } else {
        None
    }
}

/// A little-endian `u64` at the front of `s`, and what follows it.
pub open spec fn read_u64(s: Seq<u8>) -> Option<(u64, Seq<u8>)> {
    if s.len() >= 8 {
        Some((le64_value(s), s.skip(8)))
    } else {
        None
    }
}

/// What a block with a four-byte length in front can be.
pub enum Block {
    /// The block and what follows it.
    Whole(Seq<u8>, Seq<u8>),
    /// The input ends inside the length.
    NoLength,
    /// The input ends inside the block.
    Short,
}

/// A block at the front of `s` that carries its length in four bytes.
#[verifier::opaque]
pub open spec fn read_block32(s: Seq<u8>) -> Block {
    match read_u32(s) {
        None => Block::NoLength,
        Some((n, rest1)) => match split(rest1, n as int) {
            None => Block::Short,
            Some((b, rest2)) => Block::Whole(b, rest2),
        },
    }
}

/// A block at the front of `s` that carries its length in eight bytes.
#[verifier::opaque]
pub open spec fn read_block64(s: Seq<u8>) -> Block {
    match read_u64(s) {
        None => Block::NoLength,
        Some((n, rest1)) => match split(rest1, n as int) {
            None => Block::Short,
            Some((b, rest2)) => Block::Whole(b, rest2),
        },
    }
}

/// The bytes of a block with its length in four bytes in front.
#[verifier::opaque]
pub open spec fn block32(b: Seq<u8>) -> Seq<u8> {
    le32(len32(b.len())) + b
}

/// The bytes of a block with its length in eight bytes in front.
#[verifier::opaque]
pub open spec fn block64(b: Seq<u8>) -> Seq<u8> {
    le64(b.len() as u64) + b
}

/// Why a block could not be read.
pub enum Cut {
    /// The input ends inside the length.
    NoLength,
    /// The input ends inside the block.
    Short,
}

/// Reads a block that carries its length in four bytes.
pub fn take_block32<'a>(r: &mut Reader<'a>) -> (out: Result<&'a [u8], Cut>)
    ensures
        match out {
            Ok(b) => read_block32(old(r).rest()) == Block::Whole(b@, final(r).rest()),
            Err(Cut::NoLength) => read_block32(old(r).rest()) == Block::NoLength,
            Err(Cut::Short) => read_block32(old(r).rest()) == Block::Short,
        },
{
    proof {
        reveal(read_block32);
    }
    match r.u32() {
        None => Err(Cut::NoLength),
        Some(n) => match r.take(n as u64) {
            None => Err(Cut::Short),
            Some(b) => Ok(b),
        },
    }
}

/// Reads a block that carries its length in eight bytes.
pub fn take_block64<'a>(r: &mut Reader<'a>) -> (out: Result<&'a [u8], Cut>)
    ensures
        match out {
            Ok(b) => read_block64(old(r).rest()) == Block::Whole(b@, final(r).rest()),
            Err(Cut::NoLength) => read_block64(old(r).rest()) == Block::NoLength,
            Err(Cut::Short) => read_block64(old(r).rest()) == Block::Short,
        },
{
    proof {
        reveal(read_block64);
    }
    match r.u64() {
        None => Err(Cut::NoLength),
        Some(n) => match r.take(n) {
            None => Err(Cut::Short),
            Some(b) => Ok(b),
        },
    }
}

/// Appends `b` with its length in four bytes in front.
pub fn put_block32(buf: &mut Vec<u8>, b: &[u8])
    ensures
        final(buf)@ == old(buf)@ + block32(b@),
{
    proof {
        reveal(block32);
    }
    let n = ((b.len() as u64) % 0x1_0000_0000) as u32;
    put_u32(buf, n);
    put_bytes(buf, b);
    assert(buf@ =~= old(buf)@ + block32(b@));
}

/// Appends `b` with its length in eight bytes in front.
pub fn put_block64(buf: &mut Vec<u8>, b: &[u8])
    ensures
        final(buf)@ == old(buf)@ + block64(b@),
{
    proof {
        reveal(block64);
    }
    put_u64(buf, b.len() as u64);
    put_bytes(buf, b);
    assert(buf@ =~= old(buf)@ + block64(b@));
}

/// A key-value cache in compressed form, as a model exported it. The data
/// is opaque here: it is stored and handed back byte for byte.
#[derive(Debug, Clone)]
pub struct CompressedKV {
    /// The model that the cache belongs to.
    pub model_id: String,
    /// Number of layers.
    pub num_layers: u32,
    /// Number of attention heads.
    pub num_heads: u32,
    /// Dimension of each head.
    pub head_dim: u32,
    /// Number of positions that the cache covers.
    pub seq_len: u32,
    /// The quantization format of the data.
    pub quantization: String,
    /// The compressed data.
    pub data: Vec<u8>,
}

/// What a [`CompressedKV`] holds.
pub struct KvModel {
    pub model_id: Seq<char>,
    pub num_layers: u32,
    pub num_heads: u32,
    pub head_dim: u32,
    pub seq_len: u32,
    pub quantization: Seq<char>,
    pub data: Seq<u8>,
}

impl View for CompressedKV {
    type V = KvModel;

    open spec fn view(&self) -> KvModel {
        KvModel {
            model_id: self.model_id@,
            num_layers: self.num_layers,
            num_heads: self.num_heads,
            head_dim: self.head_dim,
            seq_len: self.seq_len,
            quantization: self.quantization@,
            data: self.data@,
        }
    }
}

impl KvModel {
    /// The bytes of the cache in a record.
    pub open spec fn encode(self) -> Seq<u8> {
        block32(utf8(self.model_id)) + le32(self.num_layers) + le32(self.num_heads) + le32(
            self.head_dim,
        ) + le32(self.seq_len) + block32(utf8(self.quantization)) + block64(self.data)
    }

    /// Whether every length fits the field that carries it.
    pub open spec fn fits(self) -> bool {
        &&& utf8(self.model_id).len() <= u32::MAX
        &&& utf8(self.quantization).len() <= u32::MAX
        &&& self.data.len() <= u64::MAX
    }

    /// The cache at the front of `s` and the number of bytes it takes, where
    /// `s` starts with a well-formed one.
    pub open spec fn parse(s: Seq<u8>) -> Option<(KvModel, int)> {
        match read_block32(s) {
            Block::Whole(mb, rest1) => match text_of(mb) {
                None => None,
                Some(model_id) => if rest1.len() < 16 {
                    None
                } else {
                    let num_layers = le32_value(rest1);
                    let num_heads = le32_value(rest1.skip(4));
                    let head_dim = le32_value(rest1.skip(8));
                    let seq_len = le32_value(rest1.skip(12));
                    match read_block32(rest1.skip(16)) {
                        Block::Whole(qb, rest2) => match text_of(qb) {
                            None => None,
                            Some(quantization) => match read_block64(rest2) {
                                Block::Whole(data, rest3) => Some(
                                    (
                                        KvModel {
                                            model_id,
                                            num_layers,
                                            num_heads,
                                            head_dim,
                                            seq_len,
                                            quantization,
                                            data,
                                        },
                                        s.len() - rest3.len(),
                                    ),
                                ),
                                _ => None,
                            },
                        },
                        _ => None,
                    }
                },
            },
            _ => None,
        }
    }
}

impl CompressedKV {
    /// The size of the compressed data in bytes.
    pub fn size_bytes(&self) -> (n: usize)
        ensures
            n == self@.data.len(),
    {
        self.data.len()
    }

    /// A cache without data, for models that export none.
    pub fn placeholder(model_id: &str) -> (kv: CompressedKV)
        ensures
            kv@ == (KvModel {
                model_id: model_id@,
                num_layers: 0,
                num_heads: 0,
                head_dim: 0,
                seq_len: 0,
                quantization: "none"@,
                data: Seq::empty(),
            }),
    {
        CompressedKV {
            model_id: model_id.to_owned(),
            num_layers: 0,
            num_heads: 0,
            head_dim: 0,
            seq_len: 0,
            quantization: "none".to_owned(),
            data: Vec::new(),
        }
    }

    /// The bytes of the cache in a record.
    pub fn to_bytes(&self) -> (bytes: Vec<u8>)
        ensures
            bytes@ == self@.encode(),
    {
        let mut bytes = Vec::new();
        put_block32(&mut bytes, bytes_of(self.model_id.as_str()));
        put_u32(&mut bytes, self.num_layers);
        put_u32(&mut bytes, self.num_heads);
        put_u32(&mut bytes, self.head_dim);
        put_u32(&mut bytes, self.seq_len);
        put_block32(&mut bytes, bytes_of(self.quantization.as_str()));
        put_block64(&mut bytes, self.data.as_slice());
        assert(bytes@ =~= self@.encode());
        bytes
    }

    /// Reads a cache from the front of `data`; also returns how many bytes
    /// it took. Fails where the input is cut short or a text is not UTF-8.
    pub fn from_bytes(data: &[u8]) -> (r: Option<(CompressedKV, usize)>)
        ensures
            match r {
                Some((kv, used)) => KvModel::parse(data@) == Some((kv@, used as int)),
                None => KvModel::parse(data@).is_none(),
            },
    {
        proof {
            reveal(read_block32);
            reveal(read_block64);
        }
        let mut r = Reader::new(data);
        let model_id = match take_block32(&mut r) {
            Ok(b) => match decode(b) {
                Some(s) => s,
                None => { return None; },
            },
            Err(_) => { return None; },
        };
        if r.remaining() < 16 {
            return None;
        }
        let ghost rest1 = r.rest();
        let num_layers = r.u32().unwrap();
        let num_heads = r.u32().unwrap();
        let head_dim = r.u32().unwrap();
        let seq_len = r.u32().unwrap();
        proof {
            assert(rest1.skip(4).skip(4) =~= rest1.skip(8));
            assert(rest1.skip(8).skip(4) =~= rest1.skip(12));
            assert(rest1.skip(12).skip(4) =~= rest1.skip(16));
        }
        let quantization = match take_block32(&mut r) {
            Ok(b) => match decode(b) {
                Some(s) => s,
                None => { return None; },
            },
            Err(_) => { return None; },
        };
        let kv_data = match take_block64(&mut r) {
            Ok(b) => vstd::slice::slice_to_vec(b),
            Err(_) => { return None; },
        };
        let used = data.len() - r.remaining();
        Some(
            (
                CompressedKV {
                    model_id,
                    num_layers,
                    num_heads,
                    head_dim,
                    seq_len,
                    quantization,
                    data: kv_data,
                },
                used,
            ),
        )
    }
}

/// A list of key-value pairs read as a map: a key is first bound to a value
/// and later rebound in place.
pub type Pairs = Seq<(Seq<char>, Seq<char>)>;

/// Whether no key occurs twice in `es`.
pub open spec fn distinct_keys(es: Pairs) -> bool {
    forall|i: int, j: int| 0 <= i < j < es.len() ==> es[i].0 != es[j].0
}

/// The first position at which `key` is bound in `es`, or the length of
/// `es` where it is bound nowhere.
pub open spec fn find_key(es: Pairs, key: Seq<char>) -> int
    decreases es.len(),
{
    if es.len() == 0 {
        0
    } else if es[0].0 == key {
        0
    } else {
        1 + find_key(es.skip(1), key)
    }
}

/// `es` with `key` bound to `value`: in place where `key` was bound, at the
/// end where it was not.
pub open spec fn bind(es: Pairs, key: Seq<char>, value: Seq<char>) -> Pairs {
    let i = find_key(es, key);
    if i < es.len() {
        es.update(i, (key, value))
    } else {
        es.push((key, value))
    }
}

/// What `find_key` finds: the first position that binds the key.
pub proof fn lemma_find_key(es: Pairs, key: Seq<char>)
    ensures
        0 <= find_key(es, key) <= es.len(),
        find_key(es, key) < es.len() ==> es[find_key(es, key)].0 == key,
        forall|j: int| 0 <= j < find_key(es, key) ==> es[j].0 != key,
    decreases es.len(),
{
    if es.len() != 0 && es[0].0 != key {
        lemma_find_key(es.skip(1), key);
        let r = find_key(es.skip(1), key);
        assert forall|j: int| 0 <= j < 1 + r implies es[j].0 != key by {
            if j > 0 {
                assert(es.skip(1)[j - 1] == es[j]);
            }
        }
        if r < es.skip(1).len() {
            assert(es.skip(1)[r] == es[r + 1]);
        }
    }
}

/// The first position that binds the key is the one `find_key` finds.
pub proof fn lemma_find_key_is(es: Pairs, key: Seq<char>, i: int)
    requires
        0 <= i <= es.len(),
        forall|j: int| 0 <= j < i ==> es[j].0 != key,
        i < es.len() ==> es[i].0 == key,
    ensures
        find_key(es, key) == i,
{
    lemma_find_key(es, key);
}

/// Binding keeps the keys distinct.
pub proof fn lemma_bind_distinct(es: Pairs, key: Seq<char>, value: Seq<char>)
    requires
        distinct_keys(es),
    ensures
        distinct_keys(bind(es, key, value)),
{
    lemma_find_key(es, key);
}

/// Key-value annotations of a state: each key is bound to one value, and the
/// keys keep the order in which they were first bound.
#[derive(Debug)]
pub struct Metadata {
    entries: Vec<(String, String)>,
}

/// The texts of a list of pairs of strings.
pub open spec fn pairs_of(entries: Seq<(String, String)>) -> Pairs {
    Seq::new(entries.len(), |i: int| (entries[i].0@, entries[i].1@))
}

impl View for Metadata {
    type V = Pairs;

    closed spec fn view(&self) -> Pairs {
        pairs_of(self.entries@)
    }
}

impl Clone for Metadata {
    fn clone(&self) -> (r: Self)
        ensures
            r@ == self@,
    {
        proof {
            use_type_invariant(self);
        }
        let mut entries: Vec<(String, String)> = Vec::new();
        let mut i: usize = 0;
        while i < self.entries.len()
            invariant
                i <= self.entries.len(),
                entries@.len() == i,
                forall|j: int|
                    0 <= j < i ==> entries@[j].0@ == self.entries@[j].0@ && entries@[j].1@
                        == self.entries@[j].1@,
            decreases self.entries.len() - i,
        {
            let k = self.entries[i].0.clone();
            let v = self.entries[i].1.clone();
            entries.push((k, v));
            i = i + 1;
        }
        assert(pairs_of(entries@) =~= self@);
        Metadata { entries }
    }
}

impl Metadata {
    #[verifier::type_invariant]
    spec fn keys_are_distinct(&self) -> bool {
        distinct_keys(self@)
    }

    /// No annotations.
    pub fn new() -> (m: Metadata)
        ensures
            m@ == Pairs::empty(),
    {
        let entries: Vec<(String, String)> = Vec::new();
        assert(pairs_of(entries@) =~= Pairs::empty());
        Metadata { entries }
    }

    /// The number of keys, which are distinct.
    pub fn len(&self) -> (n: usize)
        ensures
            n == self@.len(),
            distinct_keys(self@),
    {
        proof {
            use_type_invariant(self);
        }
        self.entries.len()
    }

    /// Whether there is no key.
    pub fn is_empty(&self) -> (b: bool)
        ensures
            b == (self@.len() == 0),
    {
        self.entries.len() == 0
    }

    /// The key at position `i`.
    pub fn key_at(&self, i: usize) -> (k: &str)
        requires
            i < self@.len(),
        ensures
            k@ == self@[i as int].0,
    {
        self.entries[i].0.as_str()
    }

    /// The value at position `i`.
    pub fn value_at(&self, i: usize) -> (v: &str)
        requires
            i < self@.len(),
        ensures
            v@ == self@[i as int].1,
    {
        self.entries[i].1.as_str()
    }

    /// The position at which `key` is bound, or the number of keys where it
    /// is not bound.
    pub fn position(&self, key: &str) -> (i: usize)
        ensures
            i == find_key(self@, key@),
    {
        let mut i: usize = 0;
        while i < self.entries.len()
            invariant
                i <= self.entries.len(),
                forall|j: int| 0 <= j < i ==> self@[j].0 != key@,
            decreases self.entries.len() - i,
        {
            if same_text(self.entries[i].0.as_str(), key) {
                proof {
                    lemma_find_key_is(self@, key@, i as int);
                }
                return i;
            }
            i = i + 1;
        }
        proof {
            lemma_find_key_is(self@, key@, i as int);
        }
        i
    }

    /// The value that `key` is bound to.
    pub fn get(&self, key: &str) -> (v: Option<&str>)
        ensures
            match v {
                Some(v) => find_key(self@, key@) < self@.len() && v@ == self@[find_key(
                    self@,
                    key@,
                )].1,
                None => find_key(self@, key@) == self@.len(),
            },
    {
        let i = self.position(key);
        proof {
            lemma_find_key(self@, key@);
        }
        if i < self.entries.len() {
            Some(self.entries[i].1.as_str())
        } else {
            None
        }
    }

    /// Binds `key` to `value`.
    pub fn insert(&mut self, key: String, value: String)
        ensures
            final(self)@ == bind(old(self)@, key@, value@),
    {
        proof {
            use_type_invariant(&*self);
            lemma_bind_distinct(self@, key@, value@);
            lemma_find_key(self@, key@);
        }
        let i = self.position(key.as_str());
        let mut entries: Vec<(String, String)> = Vec::new();
        std::mem::swap(&mut entries, &mut self.entries);
        if i < entries.len() {
            entries.set(i, (key, value));
        } else {
            entries.push((key, value));
        }
        assert(pairs_of(entries@) =~= bind(old(self)@, key@, value@));
        self.entries = entries;
    }
}

/// Why bytes were refused as a record or a batch.
#[derive(Debug, Clone)]
pub enum AttentionError {
    /// The bytes do not open with the expected magic.
    InvalidMagic,
    /// The bytes are of a version that is not read here.
    UnsupportedVersion(u32),
    /// The bytes break the format in the way that the message names.
    InvalidFormat(String),
}

/// What an [`AttentionError`] holds.
pub enum ErrorModel {
    InvalidMagic,
    UnsupportedVersion(u32),
    InvalidFormat(Seq<char>),
}

impl View for AttentionError {
    type V = ErrorModel;

    open spec fn view(&self) -> ErrorModel {
        match self {
            AttentionError::InvalidMagic => ErrorModel::InvalidMagic,
            AttentionError::UnsupportedVersion(v) => ErrorModel::UnsupportedVersion(*v),
            AttentionError::InvalidFormat(m) => ErrorModel::InvalidFormat(m@),
        }
    }
}

/// A format error with the given message.
pub fn invalid(message: &str) -> (e: AttentionError)
    ensures
        e@ == ErrorModel::InvalidFormat(message@),
{
    AttentionError::InvalidFormat(message.to_owned())
}

/// The magic of a record.
pub open spec fn record_magic() -> Seq<u8> {
    seq![0x41u8, 0x54u8, 0x54u8, 0x4eu8]
}

/// The magic of a batch.
pub open spec fn batch_magic() -> Seq<u8> {
    seq![0x41u8, 0x54u8, 0x4eu8, 0x42u8]
}

/// What follows the magic and the version at the front of `s`, where `s`
/// opens with `magic` and version 1.
#[verifier::opaque]
pub open spec fn parse_header(s: Seq<u8>, magic: Seq<u8>) -> Result<Seq<u8>, ErrorModel> {
    if s.len() < 8 {
        Err(ErrorModel::InvalidFormat("Too short"@))
    } else if s.take(4) != magic {
        Err(ErrorModel::InvalidMagic)
    } else if le32_value(s.skip(4)) != 1 {
        Err(ErrorModel::UnsupportedVersion(le32_value(s.skip(4))))
    } else {
        Ok(s.skip(8))
    }
}

/// Reads the magic and the version.
fn take_header(r: &mut Reader, m0: u8, m1: u8, m2: u8, m3: u8) -> (out: Result<(), AttentionError>)
    ensures
        match out {
            Ok(()) => parse_header(old(r).rest(), seq![m0, m1, m2, m3]) == Ok::<
                Seq<u8>,
                ErrorModel,
            >(final(r).rest()),
            Err(e) => parse_header(old(r).rest(), seq![m0, m1, m2, m3]) == Err::<
                Seq<u8>,
                ErrorModel,
            >(e@),
        },
{
    proof {
        reveal(parse_header);
    }
    if r.remaining() < 8 {
        return Err(invalid("Too short"));
    }
    let ghost s = r.rest();
    let m = r.take(4).unwrap();
    let same = m[0] == m0 && m[1] == m1 && m[2] == m2 && m[3] == m3;
    proof {
        let magic = seq![m0, m1, m2, m3];
        if same {
            assert(s.take(4) =~= magic);
        } else {
            assert(s.take(4)[0] == m@[0]);
            assert(magic[0] == m0 && magic[1] == m1 && magic[2] == m2 && magic[3] == m3);
        }
    }
    if !same {
        return Err(AttentionError::InvalidMagic);
    }
    let version = r.u32().unwrap();
    if version != 1 {
        return Err(AttentionError::UnsupportedVersion(version));
    }
    assert(r.rest() =~= s.skip(8));
    Ok(())
}

/// The bytes of `ws`, each word as four little-endian bytes.
pub open spec fn words(ws: Seq<u32>) -> Seq<u8> {
    Seq::new(4 * ws.len(), |j: int| le32(ws[j / 4])[j % 4])
}

/// `n` little-endian words at the front of `s`, and what follows them.
pub open spec fn read_words(s: Seq<u8>, n: nat) -> Option<(Seq<u32>, Seq<u8>)> {
    if s.len() >= 4 * n {
        Some((Seq::new(n, |i: int| le32_value(s.skip(4 * i))), s.skip(4 * n as int)))
    } else {
        None
    }
}

/// Appends the bytes of `ws`.
pub fn put_words(buf: &mut Vec<u8>, ws: &Vec<u32>)
    ensures
        final(buf)@ == old(buf)@ + words(ws@),
{
    let mut i: usize = 0;
    while i < ws.len()
        invariant
            i <= ws.len(),
            buf@ == old(buf)@ + words(ws@.take(i as int)),
        decreases ws.len() - i,
    {
        let ghost before = buf@;
        put_u32(buf, ws[i]);
        proof {
            let a = words(ws@.take(i as int));
            let b = words(ws@.take(i + 1));
            assert(a + le32(ws@[i as int]) =~= b) by {
                assert forall|j: int| 0 <= j < b.len() implies (a + le32(ws@[i as int]))[j]
                    == b[j] by {
                    if j < 4 * i {
                        assert(ws@.take(i as int)[j / 4] == ws@.take(i + 1)[j / 4]);
                    } else {
                        assert(j / 4 == i);
                        assert(j - 4 * i == j % 4);
                    }
                }
            }
            assert(buf@ =~= old(buf)@ + b);
        }
        i = i + 1;
    }
    assert(ws@.take(ws@.len() as int) =~= ws@);
}

/// Reads `n` little-endian words.
pub fn take_words(r: &mut Reader, n: u32) -> (out: Option<Vec<u32>>)
    ensures
        match out {
            Some(ws) => read_words(old(r).rest(), n as nat) == Some((ws@, final(r).rest())),
            None => read_words(old(r).rest(), n as nat).is_none(),
        },
{
    if (r.remaining() as u64) < 4 * (n as u64) {
        return None;
    }
    let ghost s = r.rest();
    let mut ws: Vec<u32> = Vec::new();
    let mut i: u32 = 0;
    while i < n
        invariant
            i <= n,
            s.len() >= 4 * n,
            r.rest() == s.skip(4 * i),
            ws@ == Seq::new(i as nat, |j: int| le32_value(s.skip(4 * j))),
        decreases n - i,
    {
        let w = r.u32().unwrap();
        ws.push(w);
        assert(s.skip(4 * i).skip(4) =~= s.skip(4 * (i + 1)));
        assert(ws@ =~= Seq::new((i + 1) as nat, |j: int| le32_value(s.skip(4 * j))));
        i = i + 1;
    }
    Some(ws)
}

/// One unit of memory: what was said, by whom and when, the vector that
/// routes retrieval to it, and whatever else the caller attaches. The
/// embedding holds IEEE-754 single-precision words.
#[derive(Debug, Clone)]
pub struct AttentionState {
    /// The identifier of the state.
    pub id: Id,
    /// When the state was made, in milliseconds since the Unix epoch.
    pub timestamp_ms: u64,
    /// Who speaks.
    pub role: Role,
    /// The text.
    pub text: String,
    /// The embedding of the text.
    pub embedding: Vec<u32>,
    /// The key-value cache that belongs to the text, where the model gave one.
    pub kv_cache: Option<CompressedKV>,
    /// Annotations.
    pub metadata: Metadata,
}

/// What an [`AttentionState`] holds.
pub struct StateModel {
    pub id: Id,
    pub timestamp_ms: u64,
    pub role: Role,
    pub text: Seq<char>,
    pub embedding: Seq<u32>,
    pub kv_cache: Option<KvModel>,
    pub metadata: Pairs,
}

impl View for AttentionState {
    type V = StateModel;

    open spec fn view(&self) -> StateModel {
        StateModel {
            id: self.id,
            timestamp_ms: self.timestamp_ms,
            role: self.role,
            text: self.text@,
            embedding: self.embedding@,
            kv_cache: match self.kv_cache {
                Some(kv) => Some(kv@),
                None => None,
            },
            metadata: self.metadata@,
        }
    }
}

/// The bytes of one annotation: key and value, each with its length in front.
pub open spec fn encode_pair(e: (Seq<char>, Seq<char>)) -> Seq<u8> {
    block32(utf8(e.0)) + block32(utf8(e.1))
}

/// The bytes of a list of annotations, one after the other.
pub open spec fn encode_pairs(es: Pairs) -> Seq<u8>
    decreases es.len(),
{
    if es.len() == 0 {
        Seq::empty()
    } else {
        encode_pairs(es.drop_last()) + encode_pair(es.last())
    }
}

/// The annotations that `n` pairs at the front of `s` add to `acc`.
pub open spec fn parse_pairs(s: Seq<u8>, n: nat, acc: Pairs) -> Result<Pairs, ErrorModel>
    decreases n,
{
    if n == 0 {
        Ok(acc)
    } else {
        match read_block32(s) {
            Block::NoLength => Err(ErrorModel::InvalidFormat("Missing key length"@)),
            Block::Short => Err(ErrorModel::InvalidFormat("Key truncated"@)),
            Block::Whole(kb, rest1) => match text_of(kb) {
                None => Err(ErrorModel::InvalidFormat("Invalid UTF-8 in key"@)),
                Some(key) => match read_block32(rest1) {
                    Block::NoLength => Err(ErrorModel::InvalidFormat("Missing value length"@)),
                    Block::Short => Err(ErrorModel::InvalidFormat("Value truncated"@)),
                    Block::Whole(vb, rest2) => match text_of(vb) {
                        None => Err(ErrorModel::InvalidFormat("Invalid UTF-8 in value"@)),
                        Some(value) => parse_pairs(rest2, (n - 1) as nat, bind(acc, key, value)),
                    },
                },
            },
        }
    }
}

/// The cache of a record, if it has one, and what follows it.
#[verifier::opaque]
pub open spec fn parse_cache(s: Seq<u8>) -> Result<(Option<KvModel>, Seq<u8>), ErrorModel> {
    if s.len() < 1 {
        Err(ErrorModel::InvalidFormat("Missing KV flag"@))
    } else if s[0] == 0 {
        Ok((None, s.skip(1)))
    } else {
        match read_block64(s.skip(1)) {
            Block::NoLength => Err(ErrorModel::InvalidFormat("Missing KV length"@)),
            Block::Short => Err(ErrorModel::InvalidFormat("KV data truncated"@)),
            Block::Whole(kb, rest1) => match KvModel::parse(kb) {
                None => Err(ErrorModel::InvalidFormat("Invalid KV cache"@)),
                Some((kv, _)) => Ok((Some(kv), rest1)),
            },
        }
    }
}

/// The text and the embedding of a record, and what follows them.
#[verifier::opaque]
pub open spec fn parse_content(s: Seq<u8>) -> Result<(Seq<char>, Seq<u32>, Seq<u8>), ErrorModel> {
    match read_block32(s) {
        Block::NoLength => Err(ErrorModel::InvalidFormat("Missing text length"@)),
        Block::Short => Err(ErrorModel::InvalidFormat("Text truncated"@)),
        Block::Whole(tb, rest1) => match text_of(tb) {
            None => Err(ErrorModel::InvalidFormat("Invalid UTF-8 in text"@)),
            Some(text) => match read_u32(rest1) {
                None => Err(ErrorModel::InvalidFormat("Missing embedding length"@)),
                Some((n, rest2)) => match read_words(rest2, n as nat) {
                    None => Err(ErrorModel::InvalidFormat("Embedding truncated"@)),
                    Some((embedding, rest3)) => Ok((text, embedding, rest3)),
                },
            },
        },
    }
}

/// The identifier, the time and the role of a record, and what follows them.
#[verifier::opaque]
pub open spec fn parse_origin(s: Seq<u8>) -> Result<(Id, u64, Role, Seq<u8>), ErrorModel> {
    if s.len() < 16 {
        Err(ErrorModel::InvalidFormat("Missing ID"@))
    } else if s.len() < 24 {
        Err(ErrorModel::InvalidFormat("Missing timestamp"@))
    } else if s.len() < 25 {
        Err(ErrorModel::InvalidFormat("Missing role"@))
    } else {
        match Role::of_code(s[24]) {
            None => Err(ErrorModel::InvalidFormat("Invalid role"@)),
            Some(role) => Ok((Id::of_bytes(s), le64_value(s.skip(16)), role, s.skip(25))),
        }
    }
}

impl StateModel {
    /// The bytes of the cache field.
    pub open spec fn encode_cache(kv: Option<KvModel>) -> Seq<u8> {
        match kv {
            None => seq![0u8],
            Some(kv) => seq![1u8] + block64(kv.encode()),
        }
    }

    /// The state as a record.
    #[verifier::opaque]
    pub open spec fn encode(self) -> Seq<u8> {
        record_magic() + le32(1) + self.id.bytes() + le64(self.timestamp_ms)
            + seq![self.role.code()] + block32(utf8(self.text)) + le32(
            len32(self.embedding.len()),
        ) + words(self.embedding) + Self::encode_cache(self.kv_cache) + le32(
            len32(self.metadata.len()),
        ) + encode_pairs(self.metadata)
    }

    /// Whether the state can be written as a record and read back: every
    /// length fits the field that carries it, and no key occurs twice.
    pub open spec fn valid(self) -> bool {
        &&& utf8(self.text).len() <= u32::MAX
        &&& self.embedding.len() <= u32::MAX
        &&& match self.kv_cache {
            Some(kv) => kv.fits() && kv.encode().len() <= u64::MAX,
            None => true,
        }
        &&& self.metadata.len() <= u32::MAX
        &&& distinct_keys(self.metadata)
        &&& forall|i: int|
            0 <= i < self.metadata.len() ==> utf8(#[trigger] self.metadata[i].0).len()
                <= u32::MAX && utf8(self.metadata[i].1).len() <= u32::MAX
    }

    /// The state that the record `s` holds, or why `s` is no record.
    #[verifier::opaque]
    pub open spec fn parse(s: Seq<u8>) -> Result<StateModel, ErrorModel> {
        match parse_header(s, record_magic()) {
            Err(e) => Err(e),
            Ok(rest1) => match parse_origin(rest1) {
                Err(e) => Err(e),
                Ok((id, timestamp_ms, role, rest2)) => match parse_content(rest2) {
                    Err(e) => Err(e),
                    Ok((text, embedding, rest3)) => match parse_cache(rest3) {
                        Err(e) => Err(e),
                        Ok((kv_cache, rest4)) => match read_u32(rest4) {
                            None => Err(ErrorModel::InvalidFormat("Missing metadata count"@)),
                            Some((n, rest5)) => match parse_pairs(rest5, n as nat, Pairs::empty()) {
                                Err(e) => Err(e),
                                Ok(metadata) => Ok(
                                    StateModel {
                                        id,
                                        timestamp_ms,
                                        role,
                                        text,
                                        embedding,
                                        kv_cache,
                                        metadata,
                                    },
                                ),
                            },
                        },
                    },
                },
            },
        }
    }
}

/// Reads the identifier, the time and the role of a record.
fn take_origin(r: &mut Reader) -> (out: Result<(Id, u64, Role), AttentionError>)
    ensures
        match out {
            Ok((id, ts, role)) => parse_origin(old(r).rest()) == Ok::<_, ErrorModel>(
                (id, ts, role, final(r).rest()),
            ),
            Err(e) => parse_origin(old(r).rest()) == Err::<(Id, u64, Role, Seq<u8>), _>(e@),
        },
{
    proof {
        reveal(parse_origin);
    }
    let ghost s = r.rest();
    let id = match Id::read_from(r) {
        Some(id) => id,
        None => { return Err(invalid("Missing ID")); },
    };
    let timestamp_ms = match r.u64() {
        Some(t) => t,
        None => { return Err(invalid("Missing timestamp")); },
    };
    let role = match r.u8() {
        None => { return Err(invalid("Missing role")); },
        Some(b) => {
            assert(b == s[24]);
            match Role::from_byte(b) {
                Some(role) => role,
                None => { return Err(invalid("Invalid role")); },
            }
        },
    };
    assert(r.rest() =~= s.skip(25));
    Ok((id, timestamp_ms, role))
}

/// Reads the text and the embedding of a record.
fn take_content(r: &mut Reader) -> (out: Result<(String, Vec<u32>), AttentionError>)
    ensures
        match out {
            Ok((text, embedding)) => parse_content(old(r).rest()) == Ok::<_, ErrorModel>(
                (text@, embedding@, final(r).rest()),
            ),
            Err(e) => parse_content(old(r).rest()) == Err::<(Seq<char>, Seq<u32>, Seq<u8>), _>(
                e@,
            ),
        },
{
    proof {
        reveal(parse_content);
    }
    let text = match take_block32(r) {
        Err(Cut::NoLength) => { return Err(invalid("Missing text length")); },
        Err(Cut::Short) => { return Err(invalid("Text truncated")); },
        Ok(b) => match decode(b) {
            Some(text) => text,
            None => { return Err(invalid("Invalid UTF-8 in text")); },
        },
    };
    let n = match r.u32() {
        Some(n) => n,
        None => { return Err(invalid("Missing embedding length")); },
    };
    let embedding = match take_words(r, n) {
        Some(ws) => ws,
        None => { return Err(invalid("Embedding truncated")); },
    };
    Ok((text, embedding))
}

/// Reads the cache field of a record.
fn take_cache(r: &mut Reader) -> (out: Result<Option<CompressedKV>, AttentionError>)
    ensures
        match out {
            Ok(Some(kv)) => parse_cache(old(r).rest()) == Ok::<_, ErrorModel>(
                (Some(kv@), final(r).rest()),
            ),
            Ok(None) => parse_cache(old(r).rest()) == Ok::<_, ErrorModel>(
                (None::<KvModel>, final(r).rest()),
            ),
            Err(e) => parse_cache(old(r).rest()) == Err::<(Option<KvModel>, Seq<u8>), _>(e@),
        },
{
    proof {
        reveal(parse_cache);
    }
    let flag = match r.u8() {
        Some(b) => b,
        None => { return Err(invalid("Missing KV flag")); },
    };
    if flag == 0 {
        return Ok(None);
    }
    match take_block64(r) {
        Err(Cut::NoLength) => Err(invalid("Missing KV length")),
        Err(Cut::Short) => Err(invalid("KV data truncated")),
        Ok(b) => match CompressedKV::from_bytes(b) {
            None => Err(invalid("Invalid KV cache")),
            Some((kv, _)) => Ok(Some(kv)),
        },
    }
}

/// Reads `n` annotations into `acc`.
fn take_pairs(r: &mut Reader, n: u32, into: Metadata) -> (out: Result<Metadata, AttentionError>)
    ensures
        match out {
            Ok(m) => parse_pairs(old(r).rest(), n as nat, into@) == Ok::<_, ErrorModel>(m@),
            Err(e) => parse_pairs(old(r).rest(), n as nat, into@) == Err::<Pairs, _>(e@),
        },
{
    let mut acc = into;
    let mut left: u32 = n;
    while left > 0
        invariant
            parse_pairs(r.rest(), left as nat, acc@) == parse_pairs(
                old(r).rest(),
                n as nat,
                into@,
            ),
        decreases left,
    {
        let key = match take_block32(r) {
            Err(Cut::NoLength) => { return Err(invalid("Missing key length")); },
            Err(Cut::Short) => { return Err(invalid("Key truncated")); },
            Ok(b) => match decode(b) {
                Some(key) => key,
                None => { return Err(invalid("Invalid UTF-8 in key")); },
            },
        };
        let value = match take_block32(r) {
            Err(Cut::NoLength) => { return Err(invalid("Missing value length")); },
            Err(Cut::Short) => { return Err(invalid("Value truncated")); },
            Ok(b) => match decode(b) {
                Some(value) => value,
                None => { return Err(invalid("Invalid UTF-8 in value")); },
            },
        };
        acc.insert(key, value);
        left = left - 1;
    }
    Ok(acc)
}

/// Appends the annotations of `m`.
fn put_pairs(buf: &mut Vec<u8>, m: &Metadata)
    ensures
        final(buf)@ == old(buf)@ + encode_pairs(m@),
{
    let n = m.len();
    let mut i: usize = 0;
    while i < n
        invariant
            i <= n,
            n == m@.len(),
            buf@ == old(buf)@ + encode_pairs(m@.take(i as int)),
        decreases n - i,
    {
        proof {
            assert(m@.take(i + 1).drop_last() =~= m@.take(i as int));
        }
        put_block32(buf, bytes_of(m.key_at(i)));
        put_block32(buf, bytes_of(m.value_at(i)));
        assert(buf@ =~= old(buf)@ + encode_pairs(m@.take(i + 1)));
        i = i + 1;
    }
    assert(m@.take(n as int) =~= m@);
}

impl AttentionState {
    /// A state with the given identifier and time, without cache or
    /// annotations.
    pub fn with_origin(id: Id, timestamp_ms: u64, role: Role, text: String, embedding: Vec<u32>) -> (s:
        AttentionState)
        ensures
            s@ == (StateModel {
                id,
                timestamp_ms,
                role,
                text: text@,
                embedding: embedding@,
                kv_cache: None,
                metadata: Pairs::empty(),
            }),
    {
        AttentionState {
            id,
            timestamp_ms,
            role,
            text,
            embedding,
            kv_cache: None,
            metadata: Metadata::new(),
        }
    }

    /// A state made now: with a new identifier and the current time, without
    /// cache or annotations.
    pub fn new(role: Role, text: String, embedding: Vec<u32>) -> (s: AttentionState)
        ensures
            s@.role == role,
            s@.text == text@,
            s@.embedding == embedding@,
            s@.kv_cache.is_none(),
            s@.metadata == Pairs::empty(),
    {
        let id = Id::now();
        let timestamp_ms = unix_millis();
        AttentionState::with_origin(id, timestamp_ms, role, text, embedding)
    }

    /// The state with `kv` as its cache.
    pub fn with_kv_cache(self, kv: CompressedKV) -> (s: AttentionState)
        ensures
            s@ == (StateModel { kv_cache: Some(kv@), ..self@ }),
    {
        let mut s = self;
        s.kv_cache = Some(kv);
        s
    }

    /// The state with `key` bound to `value`.
    pub fn with_metadata(self, key: &str, value: &str) -> (s: AttentionState)
        ensures
            s@ == (StateModel { metadata: bind(self@.metadata, key@, value@), ..self@ }),
    {
        let mut s = self;
        s.metadata.insert(key.to_owned(), value.to_owned());
        s
    }

    /// The state as a record.
    pub fn to_bytes(&self) -> (bytes: Vec<u8>)
        ensures
            bytes@ == self@.encode(),
    {
        proof {
            reveal(StateModel::encode);
        }
        let mut bytes: Vec<u8> = Vec::new();
        bytes.push(0x41);
        bytes.push(0x54);
        bytes.push(0x54);
        bytes.push(0x4e);
        assert(bytes@ =~= record_magic());
        put_u32(&mut bytes, 1);
        self.id.write_to(&mut bytes);
        put_u64(&mut bytes, self.timestamp_ms);
        let ghost front = bytes@;
        bytes.push(self.role.to_byte());
        assert(bytes@ =~= front + seq![self@.role.code()]);
        put_block32(&mut bytes, bytes_of(self.text.as_str()));
        put_u32(&mut bytes, ((self.embedding.len() as u64) % 0x1_0000_0000) as u32);
        put_words(&mut bytes, &self.embedding);
        let ghost front = bytes@;
        match &self.kv_cache {
            Some(kv) => {
                bytes.push(1);
                let kv_bytes = kv.to_bytes();
                put_block64(&mut bytes, kv_bytes.as_slice());
            },
            None => {
                bytes.push(0);
            },
        }
        assert(bytes@ =~= front + StateModel::encode_cache(self@.kv_cache));
        put_u32(&mut bytes, ((self.metadata.len() as u64) % 0x1_0000_0000) as u32);
        put_pairs(&mut bytes, &self.metadata);
        bytes
    }

    /// Reads a record. Bytes after the last annotation are ignored.
    pub fn from_bytes(data: &[u8]) -> (r: Result<AttentionState, AttentionError>)
        ensures
            match r {
                Ok(s) => StateModel::parse(data@) == Ok::<_, ErrorModel>(s@),
                Err(e) => StateModel::parse(data@) == Err::<StateModel, _>(e@),
            },
    {
        proof {
            reveal(StateModel::parse);
        }
        let mut r = Reader::new(data);
        match take_header(&mut r, 0x41, 0x54, 0x54, 0x4e) {
            Err(e) => { return Err(e); },
            Ok(()) => {},
        }
        let (id, timestamp_ms, role) = match take_origin(&mut r) {
            Err(e) => { return Err(e); },
            Ok(o) => o,
        };
        let (text, embedding) = match take_content(&mut r) {
            Err(e) => { return Err(e); },
            Ok(c) => c,
        };
        let kv_cache = match take_cache(&mut r) {
            Err(e) => { return Err(e); },
            Ok(kv) => kv,
        };
        let n = match r.u32() {
            Some(n) => n,
            None => { return Err(invalid("Missing metadata count")); },
        };
        let metadata = match take_pairs(&mut r, n, Metadata::new()) {
            Err(e) => { return Err(e); },
            Ok(m) => m,
        };
        Ok(AttentionState { id, timestamp_ms, role, text, embedding, kv_cache, metadata })
    }
}

/// A run of states that belong together, with the session and the document
/// that they belong to where those are known.
#[derive(Debug, Clone)]
pub struct AttentionBatch {
    /// The states, in order.
    pub states: Vec<AttentionState>,
    /// The session of the batch.
    pub session_id: Option<Id>,
    /// The document of the batch.
    pub document_id: Option<Id>,
}

/// What an [`AttentionBatch`] holds.
pub struct BatchModel {
    pub states: Seq<StateModel>,
    pub session_id: Option<Id>,
    pub document_id: Option<Id>,
}

/// What each of the states holds.
pub open spec fn state_models(states: Seq<AttentionState>) -> Seq<StateModel> {
    Seq::new(states.len(), |i: int| states[i]@)
}

impl View for AttentionBatch {
    type V = BatchModel;

    open spec fn view(&self) -> BatchModel {
        BatchModel {
            states: state_models(self.states@),
            session_id: self.session_id,
            document_id: self.document_id,
        }
    }
}

/// The bytes of an identifier that may be absent: a flag, then the
/// identifier where the flag is set.
pub open spec fn encode_opt_id(id: Option<Id>) -> Seq<u8> {
    match id {
        None => seq![0u8],
        Some(id) => seq![1u8] + id.bytes(),
    }
}

/// An identifier that may be absent at the front of `s`, and what follows
/// it; `None` where the input ends before the flag, `Some(None)` where it
/// ends inside the identifier.
pub open spec fn parse_opt_id(s: Seq<u8>) -> Option<Option<(Option<Id>, Seq<u8>)>> {
    if s.len() < 1 {
        None
    } else if s[0] == 0 {
        Some(Some((None, s.skip(1))))
    } else if s.len() < 17 {
        Some(None)
    } else {
        Some(Some((Some(Id::of_bytes(s.skip(1))), s.skip(17))))
    }
}

/// The bytes of a list of states, each as a record with its length in front.
pub open spec fn encode_states(states: Seq<StateModel>) -> Seq<u8>
    decreases states.len(),
{
    if states.len() == 0 {
        Seq::empty()
    } else {
        encode_states(states.drop_last()) + block64(states.last().encode())
    }
}

/// `acc` followed by the `n` states at the front of `s`.
pub open spec fn parse_states(s: Seq<u8>, n: nat, acc: Seq<StateModel>) -> Result<
    Seq<StateModel>,
    ErrorModel,
>
    decreases n,
{
    if n == 0 {
        Ok(acc)
    } else {
        match read_block64(s) {
            Block::NoLength => Err(ErrorModel::InvalidFormat("Missing state length"@)),
            Block::Short => Err(ErrorModel::InvalidFormat("State truncated"@)),
            Block::Whole(b, rest1) => match StateModel::parse(b) {
                Err(e) => Err(e),
                Ok(state) => parse_states(rest1, (n - 1) as nat, acc.push(state)),
            },
        }
    }
}

impl BatchModel {
    /// The batch as bytes.
    pub open spec fn encode(self) -> Seq<u8> {
        batch_magic() + le32(1) + encode_opt_id(self.session_id) + encode_opt_id(
            self.document_id,
        ) + le32(len32(self.states.len())) + encode_states(self.states)
    }

    /// Whether the batch can be written and read back: its states can, and
    /// every length fits the field that carries it.
    pub open spec fn valid(self) -> bool {
        &&& self.states.len() <= u32::MAX
        &&& forall|i: int|
            0 <= i < self.states.len() ==> (#[trigger] self.states[i]).valid()
                && self.states[i].encode().len() <= u64::MAX
    }

    /// The batch that the bytes `s` hold, or why they hold none.
    pub open spec fn parse(s: Seq<u8>) -> Result<BatchModel, ErrorModel> {
        match parse_header(s, batch_magic()) {
            Err(e) => Err(e),
            Ok(rest1) => match parse_opt_id(rest1) {
                None => Err(ErrorModel::InvalidFormat("Missing session flag"@)),
                Some(None) => Err(ErrorModel::InvalidFormat("Missing session ID"@)),
                Some(Some((session_id, rest2))) => match parse_opt_id(rest2) {
                    None => Err(ErrorModel::InvalidFormat("Missing document flag"@)),
                    Some(None) => Err(ErrorModel::InvalidFormat("Missing document ID"@)),
                    Some(Some((document_id, rest3))) => match read_u32(rest3) {
                        None => Err(ErrorModel::InvalidFormat("Missing state count"@)),
                        Some((n, rest4)) => match parse_states(rest4, n as nat, Seq::empty()) {
                            Err(e) => Err(e),
                            Ok(states) => Ok(BatchModel { states, session_id, document_id }),
                        },
                    },
                },
            },
        }
    }
}

/// Appends an identifier that may be absent.
fn put_opt_id(buf: &mut Vec<u8>, id: Option<Id>)
    ensures
        final(buf)@ == old(buf)@ + encode_opt_id(id),
{
    match id {
        Some(id) => {
            buf.push(1);
            id.write_to(buf);
        },
        None => {
            buf.push(0);
        },
    }
    assert(buf@ =~= old(buf)@ + encode_opt_id(id));
}

/// Reads an identifier that may be absent.
fn take_opt_id(r: &mut Reader) -> (out: Option<Option<Option<Id>>>)
    ensures
        match out {
            None => parse_opt_id(old(r).rest()).is_none(),
            Some(None) => parse_opt_id(old(r).rest()) == Some(None::<(Option<Id>, Seq<u8>)>),
            Some(Some(id)) => parse_opt_id(old(r).rest()) == Some(Some((id, final(r).rest()))),
        },
{
    let flag = match r.u8() {
        Some(b) => b,
        None => { return None; },
    };
    if flag == 0 {
        return Some(Some(None));
    }
    match Id::read_from(r) {
        None => Some(None),
        Some(id) => {
            assert(r.rest() =~= old(r).rest().skip(17));
            Some(Some(Some(id)))
        },
    }
}

/// Reads `n` states, each a record with its length in front.
fn take_states(r: &mut Reader, n: u32) -> (out: Result<Vec<AttentionState>, AttentionError>)
    ensures
        match out {
            Ok(states) => parse_states(old(r).rest(), n as nat, Seq::empty()) == Ok::<
                _,
                ErrorModel,
            >(state_models(states@)),
            Err(e) => parse_states(old(r).rest(), n as nat, Seq::empty()) == Err::<
                Seq<StateModel>,
                _,
            >(e@),
        },
{
    let mut states: Vec<AttentionState> = Vec::new();
    let mut left: u32 = n;
    assert(state_models(states@) =~= Seq::empty());
    while left > 0
        invariant
            parse_states(r.rest(), left as nat, state_models(states@)) == parse_states(
                old(r).rest(),
                n as nat,
                Seq::empty(),
            ),
        decreases left,
    {
        let state = match take_block64(r) {
            Err(Cut::NoLength) => { return Err(invalid("Missing state length")); },
            Err(Cut::Short) => { return Err(invalid("State truncated")); },
            Ok(b) => match AttentionState::from_bytes(b) {
                Err(e) => { return Err(e); },
                Ok(state) => state,
            },
        };
        let ghost before = state_models(states@);
        states.push(state);
        assert(state_models(states@) =~= before.push(state@));
        left = left - 1;
    }
    Ok(states)
}

impl AttentionBatch {
    /// An empty batch that belongs to no session and no document.
    pub fn new() -> (b: AttentionBatch)
        ensures
            b@ == (BatchModel { states: Seq::empty(), session_id: None, document_id: None }),
    {
        let b = AttentionBatch { states: Vec::new(), session_id: None, document_id: None };
        assert(b@.states =~= Seq::empty());
        b
    }

    /// The batch as one of the session `session_id`.
    pub fn with_session(self, session_id: Id) -> (b: AttentionBatch)
        ensures
            b@ == (BatchModel { session_id: Some(session_id), ..self@ }),
    {
        let mut b = self;
        b.session_id = Some(session_id);
        b
    }

    /// The batch as one of the document `document_id`.
    pub fn with_document(self, document_id: Id) -> (b: AttentionBatch)
        ensures
            b@ == (BatchModel { document_id: Some(document_id), ..self@ }),
    {
        let mut b = self;
        b.document_id = Some(document_id);
        b
    }

    /// Appends `state` to the batch.
    pub fn add(&mut self, state: AttentionState)
        ensures
            final(self)@ == (BatchModel { states: old(self)@.states.push(state@), ..old(self)@ }),
    {
        self.states.push(state);
        assert(self@.states =~= old(self)@.states.push(state@));
    }

    /// The batch as bytes.
    pub fn to_bytes(&self) -> (bytes: Vec<u8>)
        ensures
            bytes@ == self@.encode(),
    {
        let mut bytes: Vec<u8> = Vec::new();
        bytes.push(0x41);
        bytes.push(0x54);
        bytes.push(0x4e);
        bytes.push(0x42);
        assert(bytes@ =~= batch_magic());
        put_u32(&mut bytes, 1);
        put_opt_id(&mut bytes, self.session_id);
        put_opt_id(&mut bytes, self.document_id);
        put_u32(&mut bytes, ((self.states.len() as u64) % 0x1_0000_0000) as u32);
        let ghost front = bytes@;
        let ghost all = self@.states;
        let mut i: usize = 0;
        while i < self.states.len()
            invariant
                i <= self.states.len(),
                all == self@.states,
                bytes@ == front + encode_states(all.take(i as int)),
            decreases self.states.len() - i,
        {
            proof {
                assert(all.take(i + 1).drop_last() =~= all.take(i as int));
            }
            let state_bytes = self.states[i].to_bytes();
            put_block64(&mut bytes, state_bytes.as_slice());
            assert(bytes@ =~= front + encode_states(all.take(i + 1)));
            i = i + 1;
        }
        assert(all.take(all.len() as int) =~= all);
        bytes
    }

    /// Reads a batch. A state that is no record fails the batch with the
    /// state's own error; bytes after the last state are ignored.
    pub fn from_bytes(data: &[u8]) -> (r: Result<AttentionBatch, AttentionError>)
        ensures
            match r {
                Ok(b) => BatchModel::parse(data@) == Ok::<_, ErrorModel>(b@),
                Err(e) => BatchModel::parse(data@) == Err::<BatchModel, _>(e@),
            },
    {
        let mut r = Reader::new(data);
        match take_header(&mut r, 0x41, 0x54, 0x4e, 0x42) {
            Err(e) => { return Err(e); },
            Ok(()) => {},
        }
        let session_id = match take_opt_id(&mut r) {
            None => { return Err(invalid("Missing session flag")); },
            Some(None) => { return Err(invalid("Missing session ID")); },
            Some(Some(id)) => id,
        };
        let document_id = match take_opt_id(&mut r) {
            None => { return Err(invalid("Missing document flag")); },
            Some(None) => { return Err(invalid("Missing document ID")); },
            Some(Some(id)) => id,
        };
        let n = match r.u32() {
            Some(n) => n,
            None => { return Err(invalid("Missing state count")); },
        };
        let states = match take_states(&mut r, n) {
            Err(e) => { return Err(e); },
            Ok(states) => states,
        };
        Ok(AttentionBatch { states, session_id, document_id })
    }
}

impl Default for AttentionBatch {
    fn default() -> (b: AttentionBatch)
        ensures
            b@ == (BatchModel { states: Seq::empty(), session_id: None, document_id: None }),
    {
        AttentionBatch::new()
    }
}

impl ErrorModel {
    /// The error in words.
    pub open spec fn message(self) -> Seq<char> {
        match self {
            ErrorModel::InvalidMagic => "Invalid magic bytes"@,
            ErrorModel::UnsupportedVersion(v) => "Unsupported version: "@ + decimal_text(v as nat),
            ErrorModel::InvalidFormat(m) => "Invalid format: "@ + m,
        }
    }
}

impl AttentionError {
    /// The error in words.
    pub fn message(&self) -> (s: String)
        ensures
            s@ == self@.message(),
    {
        match self {
            AttentionError::InvalidMagic => "Invalid magic bytes".to_owned(),
            AttentionError::UnsupportedVersion(v) => {
                let mut s = "Unsupported version: ".to_owned();
                push_decimal(&mut s, *v as u64);
                s
            },
            AttentionError::InvalidFormat(m) => {
                let mut s = "Invalid format: ".to_owned();
                s.append(m.as_str());
                s
            },
        }
    }
}

/// `a + b`, or the greatest `usize` where the sum is greater.
pub open spec fn capped(n: nat) -> usize {
    if n > usize::MAX {
        usize::MAX
    } else {
        n as usize
    }
}

/// The sum of `a` and `b`, capped at the greatest `usize`.
pub fn capped_sum(a: usize, b: usize) -> (r: usize)
    ensures
        r == capped(a as nat + b as nat),
{
    if a > usize::MAX - b {
        usize::MAX
    } else {
        a + b
    }
}

/// The bytes that the first `n` annotations are estimated at: key, value
/// and eight bytes for each.
pub open spec fn pairs_size(es: Pairs, n: nat) -> nat
    decreases n,
{
    if n == 0 {
        0
    } else {
        pairs_size(es, (n - 1) as nat) + utf8(es[n - 1].0).len() + utf8(es[n - 1].1).len() + 8
    }
}

impl StateModel {
    /// The bytes that the state is estimated at: identifier, time and role,
    /// the text, four bytes for each component, the data of the cache, and
    /// the annotations.
    pub open spec fn size(self) -> nat {
        16 + 8 + 1 + utf8(self.text).len() + 4 * self.embedding.len() + match self.kv_cache {
            Some(kv) => kv.data.len(),
            None => 0,
        } + pairs_size(self.metadata, self.metadata.len())
    }
}

/// The bytes that the first `n` states are estimated at.
pub open spec fn states_size(states: Seq<StateModel>, n: nat) -> nat
    decreases n,
{
    if n == 0 {
        0
    } else {
        states_size(states, (n - 1) as nat) + states[n - 1].size()
    }
}

impl AttentionState {
    /// An estimate of the size of the state in bytes, capped at the
    /// greatest `usize`.
    pub fn size_bytes(&self) -> (n: usize)
        ensures
            n == capped(self@.size()),
    {
        let words = self.embedding.len();
        let twice = capped_sum(words, words);
        let mut n: usize = capped_sum(25, bytes_of(self.text.as_str()).len());
        n = capped_sum(n, capped_sum(twice, twice));
        n = capped_sum(
            n,
            match &self.kv_cache {
                Some(kv) => kv.size_bytes(),
                None => 0,
            },
        );
        let ghost front = 25 + utf8(self@.text).len() + 4 * self@.embedding.len()
            + match self@.kv_cache {
            Some(kv) => kv.data.len(),
            None => 0,
        };
        assert(n == capped(front));
        let count = self.metadata.len();
        let mut i: usize = 0;
        while i < count
            invariant
                i <= count,
                count == self.metadata@.len(),
                n == capped(front + pairs_size(self.metadata@, i as nat)),
            decreases count - i,
        {
            n = capped_sum(n, bytes_of(self.metadata.key_at(i)).len());
            n = capped_sum(n, bytes_of(self.metadata.value_at(i)).len());
            n = capped_sum(n, 8);
            i = i + 1;
        }
        n
    }
}

impl AttentionBatch {
    /// An estimate of the size of the batch in bytes: the sum over its
    /// states, capped at the greatest `usize`.
    pub fn size_bytes(&self) -> (n: usize)
        ensures
            n == capped(states_size(self@.states, self@.states.len())),
    {
        let mut n: usize = 0;
        let mut i: usize = 0;
        while i < self.states.len()
            invariant
                i <= self.states@.len(),
                n == capped(states_size(self@.states, i as nat)),
            decreases self.states.len() - i,
        {
            n = capped_sum(n, self.states[i].size_bytes());
            i = i + 1;
        }
        n
    }
}

} // verus!
