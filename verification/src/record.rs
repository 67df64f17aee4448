//! The checkpoint metadata record and its content-addressed identity.
//!
//! A record's id is the lowercase-hex SHA-256 digest of the process id,
//! command line and dump timestamp concatenated into a single string.

use vstd::prelude::*;

use crate::num::int_rep;
use crate::num::push_i32;
use crate::text::push_char;

verus! {

/// Mathematical image of a [`CheckpointMeta`].
pub struct RecordView {
    pub id: Seq<char>,
    pub pid: int,
    pub cmd: Seq<char>,
    pub tag: Seq<char>,
    pub dump_time: Seq<char>,
}

/// One checkpoint's metadata: exactly what is persisted per checkpoint
/// directory.
#[derive(Debug)]
pub struct CheckpointMeta {
    /// Lowercase-hex digest naming this checkpoint; equals the name of the
    /// directory that stores it.
    pub checkpoint_id: String,
    /// Process id of the checkpointed process at dump time.
    pub pid: i32,
    /// Command line of the checkpointed process at dump time.
    pub cmd: String,
    /// Label that groups related checkpoints for retention decisions.
    pub tag: String,
    /// Dump timestamp in a lexically sortable UTC form.
    pub dump_time: String,
}

impl View for CheckpointMeta {
    type V = RecordView;

    open spec fn view(&self) -> RecordView {
        RecordView {
            id: self.checkpoint_id@,
            pid: self.pid as int,
            cmd: self.cmd@,
            tag: self.tag@,
            dump_time: self.dump_time@,
        }
    }
}

impl Clone for CheckpointMeta {
    fn clone(&self) -> (res: Self)
        ensures
            res == *self,
    {
        CheckpointMeta {
            checkpoint_id: self.checkpoint_id.clone(),
            pid: self.pid,
            cmd: self.cmd.clone(),
            tag: self.tag.clone(),
            dump_time: self.dump_time.clone(),
        }
    }
}

impl PartialEq for CheckpointMeta {
    fn eq(&self, other: &Self) -> (r: bool) {
        self.checkpoint_id == other.checkpoint_id && self.pid == other.pid
            && self.cmd == other.cmd && self.tag == other.tag
            && self.dump_time == other.dump_time
    }
}

impl vstd::std_specs::cmp::PartialEqSpecImpl for CheckpointMeta {
    open spec fn obeys_eq_spec() -> bool {
        true
    }

    open spec fn eq_spec(&self, other: &Self) -> bool {
        self@ == other@
    }
}

/// The digest sha2 computes for the UTF-8 bytes of a string; it depends on
/// the characters alone.
pub uninterp spec fn sha256_of(s: Seq<char>) -> Seq<u8>;

/// Relies on `sha2::Sha256` through `digest::Digest::digest`: a 32-byte
/// digest that is a pure function of the input bytes.
#[verifier::external_body]
fn sha256_digest(s: &str) -> (r: Vec<u8>)
    ensures
        r@ == sha256_of(s@),
        r@.len() == 32,
{
    <sha2::Sha256 as sha2::Digest>::digest(s.as_bytes()).as_slice().to_vec()
}

/// Lowercase hexadecimal digit for `d`.
pub open spec fn hex_digit(d: int) -> char
    recommends
        0 <= d < 16,
{
    if d < 10 {
        ((d + 48) as char)
    } else {
        ((d + 87) as char)
    }
}

/// Lowercase hexadecimal rendering of a byte string, two digits per byte.
pub open spec fn hex_of(bytes: Seq<u8>) -> Seq<char>
    decreases bytes.len(),
{
    if bytes.len() == 0 {
        Seq::empty()
    } else {
        hex_of(bytes.drop_last()).push(hex_digit(bytes.last() as int / 16)).push(
            hex_digit(bytes.last() as int % 16),
        )
    }
}

pub proof fn lemma_hex_of_len(bytes: Seq<u8>)
    ensures
        hex_of(bytes).len() == 2 * bytes.len(),
    decreases bytes.len(),
{
    if bytes.len() > 0 {
        lemma_hex_of_len(bytes.drop_last());
    }
}

fn hex_to_char(d: u8) -> (c: char)
    requires
        d < 16,
    ensures
        c == hex_digit(d as int),
{
    match d {
        0 => '0',
        1 => '1',
        2 => '2',
        3 => '3',
        4 => '4',
        5 => '5',
        6 => '6',
        7 => '7',
        8 => '8',
        9 => '9',
        10 => 'a',
        11 => 'b',
        12 => 'c',
        13 => 'd',
        14 => 'e',
        _ => 'f',
    }
}

/// Renders a byte string as lowercase hexadecimal.
fn to_hex(bytes: &Vec<u8>) -> (out: String)
    ensures
        out@ == hex_of(bytes@),
{
    let mut out = String::new();
    let mut i: usize = 0;
    assert(out@ =~= hex_of(bytes@.take(0)));
    while i < bytes.len()
        invariant
            i <= bytes@.len(),
            out@ == hex_of(bytes@.take(i as int)),
        decreases bytes@.len() - i,
    {
        let b = bytes[i];
        let hi = hex_to_char(b / 16);
        let lo = hex_to_char(b % 16);
        push_char(&mut out, hi);
        push_char(&mut out, lo);
        proof {
            let cur = bytes@.take(i + 1);
            assert(cur.drop_last() =~= bytes@.take(i as int));
            assert(cur.last() == bytes@[i as int]);
        }
        i = i + 1;
    }
    assert(bytes@.take(bytes@.len() as int) =~= bytes@);
    out
}

/// The byte string hashed to derive a checkpoint's identity: decimal pid,
/// command line and dump timestamp, concatenated without separators.
pub open spec fn identity_input(pid: int, cmd: Seq<char>, dump_time: Seq<char>) -> Seq<char> {
    int_rep(pid) + cmd + dump_time
}

/// The checkpoint identity derived from a `(pid, cmd, dump_time)` triple.
pub open spec fn id_of(pid: int, cmd: Seq<char>, dump_time: Seq<char>) -> Seq<char> {
    hex_of(sha256_of(identity_input(pid, cmd, dump_time)))
}

/// Derives the stable checkpoint identifier for a `(pid, cmd, dump_time)`
/// triple: 64 lowercase hex digits.
pub fn generate_id(pid: i32, cmd: &str, dump_time: &str) -> (id: String)
    ensures
        id@ == id_of(pid as int, cmd@, dump_time@),
        id@.len() == 64,
{
    let mut input = String::new();
    push_i32(pid, &mut input);
    input.append(cmd);
    input.append(dump_time);
    assert(input@ =~= identity_input(pid as int, cmd@, dump_time@));
    let digest = sha256_digest(input.as_str());
    let id = to_hex(&digest);
    proof {
        lemma_hex_of_len(digest@);
    }
    id
}

/// The automatic tag given to a checkpoint dumped without one.
pub open spec fn tmp_tag(pid: int) -> Seq<char> {
    seq!['t', 'm', 'p', '-'] + int_rep(pid)
}

/// Renders the automatic `tmp-<pid>` tag.
pub fn make_tmp_tag(pid: i32) -> (tag: String)
    ensures
        tag@ == tmp_tag(pid as int),
{
    let mut out = String::new();
    push_char(&mut out, 't');
    push_char(&mut out, 'm');
    push_char(&mut out, 'p');
    push_char(&mut out, '-');
    push_i32(pid, &mut out);
    assert(out@ =~= tmp_tag(pid as int));
    out
}

impl CheckpointMeta {
    /// Builds the record for a fresh checkpoint: the tag defaults to
    /// `tmp-<pid>` when none is given, and the id is derived from the
    /// `(pid, cmd, dump_time)` triple.
    pub fn new(pid: i32, cmd: String, tag: Option<String>, dump_time: String) -> (r: Self)
        ensures
            r@.pid == pid as int,
            r@.cmd == cmd@,
            r@.dump_time == dump_time@,
            r@.tag == match tag {
                Some(t) => t@,
                None => tmp_tag(pid as int),
            },
            r@.id == id_of(pid as int, cmd@, dump_time@),
    {
        let checkpoint_id = generate_id(pid, cmd.as_str(), dump_time.as_str());
        let tag = match tag {
            Some(t) => t,
            None => make_tmp_tag(pid),
        };
        CheckpointMeta { checkpoint_id, pid, cmd, tag, dump_time }
    }
}

/// Store consistency: a record stored under directory `name` must carry
/// `name` as its id.
pub fn record_matches_dir(rec: &CheckpointMeta, name: &str) -> (r: bool)
    ensures
        r == (rec@.id == name@),
{
    crate::text::str_eq(rec.checkpoint_id.as_str(), name)
}

/// Identity generation is deterministic: the derived id is a function of
/// the `(pid, cmd, dump_time)` triple alone, so recomputing it from the
/// same triple always yields the same value.
pub proof fn lemma_identity_deterministic(
    p1: int,
    c1: Seq<char>,
    t1: Seq<char>,
    p2: int,
    c2: Seq<char>,
    t2: Seq<char>,
)
    requires
        p1 == p2,
        c1 == c2,
        t1 == t2,
    ensures
        id_of(p1, c1, t1) == id_of(p2, c2, t2),
{
}

} // verus!
