//! The bookkeeping of self-play game generation: where each batch of games is
//! written, which batch goes stale once a new one is finished, how the batch
//! counter kept in the control file advances, and the tally of games played.
//! Opening, locking, renaming and writing the files is left to the caller.

use vstd::prelude::*;
use crate::game::GameStatus;
use crate::text::{decimal, signed_text, push_signed, magnitude, digit_char, digits_value, all_digits, push_char, push_decimal, push_decimal_u64, push_repeat, push_text,
    signed_decimal, i64_from_decimal};

verus! {

/// `n` in decimal, with zeros in front up to `width` characters.
pub open spec fn zero_padded(n: nat, width: nat) -> Seq<char> {
    let d = decimal(n);
    if d.len() >= width { d } else { Seq::new((width - d.len()) as nat, |i: int| '0') + d }
}

/// A batch number as it stands in a file name: seven characters wide, zeros
/// after the sign.
pub open spec fn batch_number(id: int) -> Seq<char> {
    if id < 0 { seq!['-'] + zero_padded((-id) as nat, 6) } else { zero_padded(id as nat, 7) }
}

/// The path of the batch being written: `<dir>/batch-<number>`.
pub open spec fn batch_path_spec(dir: Seq<char>, id: int) -> Seq<char> {
    dir + seq!['/', 'b', 'a', 't', 'c', 'h', '-'] + batch_number(id)
}

/// The suffix of a finished batch.
pub open spec fn record_suffix() -> Seq<char> {
    seq!['.', 't', 'f', 'r', 'e', 'c', 'o', 'r', 'd']
}

/// The number kept in the control file: 0 when the file is empty, else the
/// file's text read as a signed decimal that fits an `i64`.
pub open spec fn control_value(contents: Seq<char>) -> Option<int> {
    if contents.len() == 0 {
        Some(0)
    } else {
        match signed_decimal(contents) {
            Some(v) => if i64::MIN <= v <= i64::MAX { Some(v) } else { None },
            None => None,
        }
    }
}

/// Appends `n` in decimal with zeros in front up to `width` characters.
fn push_zero_padded(s: &mut String, n: u64, width: usize)
    ensures
        final(s)@ == old(s)@ + zero_padded(n as nat, width as nat),
{
    let mut d = String::new();
    push_decimal_u64(&mut d, n);
    assert(d@ == decimal(n as nat));
    let len = d.as_str().unicode_len();
    if len < width {
        push_repeat(s, '0', width - len);
    }
    push_text(s, d.as_str());
    assert(final(s)@ =~= old(s)@ + zero_padded(n as nat, width as nat)) by {
        if len < width {
            assert(Seq::new((width - len) as nat, |i: int| '0') =~= Seq::new(
                (width as nat - decimal(n as nat).len()) as nat,
                |i: int| '0',
            ));
        }
    }
}

/// Appends a batch number.
fn push_batch_number(s: &mut String, id: i64)
    ensures
        final(s)@ == old(s)@ + batch_number(id as int),
{
    if id < 0 {
        push_char(s, '-');
        let m = magnitude(id);
        push_zero_padded(s, m, 6);
        assert(final(s)@ =~= old(s)@ + batch_number(id as int));
    } else {
        push_zero_padded(s, id as u64, 7);
    }
}

/// The decimal digits of `n` are digits, and they read back as `n`.
proof fn lemma_decimal_reads_back(n: nat)
    ensures
        decimal(n).len() > 0,
        all_digits(decimal(n)),
        digits_value(decimal(n)) == n,
    decreases n,
{
    let d = digit_char(n % 10);
    assert((('0' as u32) + n % 10) as char as u32 == ('0' as u32) + n % 10);
    if n < 10 {
        assert(decimal(n) == seq![d]);
        assert(seq![d].drop_last() =~= Seq::<char>::empty());
        assert(digits_value(seq![d]) == 10 * digits_value(Seq::<char>::empty()) + ((d as u32) - ('0' as u32)) as nat);
    } else {
        lemma_decimal_reads_back(n / 10);
        let s = decimal(n);
        assert(s == decimal(n / 10).push(d));
        assert(s.drop_last() =~= decimal(n / 10));
        assert(s.last() == d);
        assert(digits_value(s) == 10 * (n / 10) + n % 10);
        assert forall|i: int| 0 <= i < s.len() implies '0' <= #[trigger] s[i] <= '9' by {
            if i < s.len() - 1 {
                assert(s[i] == decimal(n / 10)[i]);
            }
        }
    }
}

/// The counter written to the control file reads back as the number written:
/// the text that `next_file_id` stores for the next batch is read, on the next
/// call, as exactly that batch's number.
pub proof fn law_control_text_reads_back(n: int)
    requires
        i64::MIN <= n <= i64::MAX,
    ensures
        control_value(signed_text(n)) == Some(n),
{
    if n < 0 {
        lemma_decimal_reads_back((-n) as nat);
        let s = signed_text(n);
        assert(s.drop_first() =~= decimal((-n) as nat));
    } else {
        lemma_decimal_reads_back(n as nat);
        let s = decimal(n as nat);
        assert('0' <= s[0] <= '9');
    }
}

/// The path of the batch `id` while it is written: `<dir>/batch-<id, 7 wide>`.
pub fn batch_path(dir: &str, id: i64) -> (p: String)
    ensures
        p@ == batch_path_spec(dir@, id as int),
{
    let mut p = String::new();
    push_text(&mut p, dir);
    push_text(&mut p, "/batch-");
    proof { reveal_strlit("/batch-"); }
    push_batch_number(&mut p, id);
    assert(p@ =~= batch_path_spec(dir@, id as int));
    p
}

/// The name a batch takes once it is finished: its path and `.tfrecord`.
pub fn finished_path(batch: &str) -> (p: String)
    ensures
        p@ == batch@ + record_suffix(),
{
    let mut p = String::new();
    push_text(&mut p, batch);
    push_text(&mut p, ".tfrecord");
    proof { reveal_strlit(".tfrecord"); }
    assert(p@ =~= batch@ + record_suffix());
    p
}

/// The line that marks a batch as stale once batch `next_id` is finished and
/// `max_files` batches are kept: the finished path of batch
/// `next_id - max_files` and a newline, or nothing while that number is negative.
pub fn stale_line(dir: &str, next_id: i64, max_files: i64) -> (r: Option<String>)
    requires
        i64::MIN <= next_id - max_files <= i64::MAX,
    ensures
        r is Some <==> next_id - max_files >= 0,
        r matches Some(l) ==> l@ == batch_path_spec(dir@, next_id - max_files) + record_suffix() + seq!['\n'],
{
    let old_id = next_id - max_files;
    if old_id >= 0 {
        let mut l = batch_path(dir, old_id);
        push_text(&mut l, ".tfrecord");
        push_char(&mut l, '\n');
        proof { reveal_strlit(".tfrecord"); }
        assert(l@ =~= batch_path_spec(dir@, next_id - max_files) + record_suffix() + seq!['\n']);
        Some(l)
    } else {
        None
    }
}

/// Reads the control file's text: the number of the batch to write now, and the
/// text that replaces the file's contents, the next number.  Nothing when the
/// text is no number that fits an `i64`, or when the next one would not fit.
pub fn next_file_id(contents: &str) -> (r: Option<(i64, String)>)
    ensures
        r is Some <==> (control_value(contents@) is Some && control_value(contents@) != Some(i64::MAX as int)),
        r matches Some((id, next)) ==> control_value(contents@) == Some(id as int) && next@ == signed_text(id + 1),
{
    let val: i64;
    if contents.unicode_len() == 0 {
        val = 0;
    } else {
        match i64_from_decimal(contents) {
            Some(v) => {
                val = v;
            }
            None => {
                return None;
            }
        }
    }
    if val == i64::MAX {
        return None;
    }
    let mut next = String::new();
    push_signed(&mut next, val + 1);
    assert(next@ =~= signed_text(val + 1));
    Some((val, next))
}

/// `<data>/models/<model>/champion/` followed by `leaf`.
pub open spec fn champion_path_spec(data: Seq<char>, model: Seq<char>, leaf: Seq<char>) -> Seq<char> {
    data + seq!['/', 'm', 'o', 'd', 'e', 'l', 's', '/'] + model
        + seq!['/', 'c', 'h', 'a', 'm', 'p', 'i', 'o', 'n', '/'] + leaf
}

/// The directory of the current champion model.
pub fn model_dir(data: &str, model: &str) -> (p: String)
    ensures
        p@ == champion_path_spec(data@, model@, seq!['s', 'a', 'v', 'e', 'd', '_', 'm', 'o', 'd', 'e', 'l']),
{
    let mut p = String::new();
    push_text(&mut p, data);
    push_text(&mut p, "/models/");
    push_text(&mut p, model);
    push_text(&mut p, "/champion/saved_model");
    proof {
        reveal_strlit("/models/");
        reveal_strlit("/champion/saved_model");
    }
    assert(p@ =~= champion_path_spec(data@, model@, seq!['s', 'a', 'v', 'e', 'd', '_', 'm', 'o', 'd', 'e', 'l']));
    p
}

/// The lock taken while a champion model is read or replaced.
pub fn model_lock_path(data: &str, model: &str) -> (p: String)
    ensures
        p@ == champion_path_spec(data@, model@, seq!['l', 'o', 'c', 'k']),
{
    let mut p = String::new();
    push_text(&mut p, data);
    push_text(&mut p, "/models/");
    push_text(&mut p, model);
    push_text(&mut p, "/champion/lock");
    proof {
        reveal_strlit("/models/");
        reveal_strlit("/champion/lock");
    }
    assert(p@ =~= champion_path_spec(data@, model@, seq!['l', 'o', 'c', 'k']));
    p
}

/// Where games go when no directory is given: `<data>/gamedata/<model>`.
pub fn default_output_dir(data: &str, model: &str) -> (p: String)
    ensures
        p@ == data@ + seq!['/', 'g', 'a', 'm', 'e', 'd', 'a', 't', 'a', '/'] + model@,
{
    let mut p = String::new();
    push_text(&mut p, data);
    push_text(&mut p, "/gamedata/");
    push_text(&mut p, model);
    proof { reveal_strlit("/gamedata/"); }
    assert(p@ =~= data@ + seq!['/', 'g', 'a', 'm', 'e', 'd', 'a', 't', 'a', '/'] + model@);
    p
}

/// The file that training data is appended to: `max`, and the first file of
/// the game data, named after `prefix` and `_` when a prefix is given.
pub fn data_filename(prefix: &str, max: i64) -> (r: (i64, String))
    ensures
        r.0 == max,
        r.1@ == seq!['s', 'r', 'c', '/', 't', 'i', 'c', 't', 'a', 'c', 't', 'o', 'e', '/']
            + seq!['g', 'a', 'm', 'e', 'd', 'a', 't', 'a', '/']
            + (if prefix@.len() > 0 { prefix@.push('_') } else { Seq::empty() })
            + seq!['0'] + record_suffix(),
{
    let mut p = String::new();
    push_text(&mut p, "src/tictactoe/gamedata/");
    if prefix.unicode_len() > 0 {
        push_text(&mut p, prefix);
        push_char(&mut p, '_');
    }
    push_text(&mut p, "0.tfrecord");
    proof {
        reveal_strlit("src/tictactoe/gamedata/");
        reveal_strlit("0.tfrecord");
    }
    assert(p@ =~= seq!['s', 'r', 'c', '/', 't', 'i', 'c', 't', 'a', 'c', 't', 'o', 'e', '/']
        + seq!['g', 'a', 'm', 'e', 'd', 'a', 't', 'a', '/']
        + (if prefix@.len() > 0 { prefix@.push('_') } else { Seq::empty() })
        + seq!['0'] + record_suffix());
    (max, p)
}

/// How many games were played, and how many of them were drawn.
#[derive(Clone, Copy, Debug, PartialEq, Eq, Structural)]
pub struct Tally {
    pub count: i64,
    pub draws: usize,
}

/// How often the game writer is flushed: after every this many games.
pub const FLUSH_EVERY: i64 = 1000;

impl Tally {
    /// No games yet.
    pub fn new() -> (t: Tally)
        ensures
            t.count == 0,
            t.draws == 0,
    {
        Tally { count: 0, draws: 0 }
    }

    /// Whether fewer than `num` games have been played.
    pub fn wants_more(&self, num: i64) -> (b: bool)
        ensures
            b == (self.count < num),
    {
        self.count < num
    }

    /// A game ended with `status`; the result says whether the writer is due
    /// a flush.
    pub fn record(&mut self, status: GameStatus) -> (flush: bool)
        requires
            old(self).count < i64::MAX,
            old(self).draws < usize::MAX,
        ensures
            final(self).count == old(self).count + 1,
            final(self).draws == old(self).draws + (if status == GameStatus::Draw { 1int } else { 0int }),
            flush == ((final(self).count as int) % (FLUSH_EVERY as int) == 0),
    {
        if status == GameStatus::Draw {
            self.draws = self.draws + 1;
        }
        self.count = self.count + 1;
        self.count % FLUSH_EVERY == 0
    }

    /// Adds the games of another tally.
    pub fn add(&mut self, other: Tally)
        requires
            i64::MIN <= old(self).count + other.count <= i64::MAX,
            old(self).draws + other.draws <= usize::MAX,
        ensures
            final(self).count == old(self).count + other.count,
            final(self).draws == old(self).draws + other.draws,
    {
        self.count = self.count + other.count;
        self.draws = self.draws + other.draws;
    }

    /// `"Drew <draws> / <count>"`.
    pub fn summary(&self) -> (s: String)
        ensures
            s@ == seq!['D', 'r', 'e', 'w', ' '] + decimal(self.draws as nat) + seq![' ', '/', ' ']
                + signed_text(self.count as int),
    {
        let mut s = String::new();
        push_text(&mut s, "Drew ");
        push_decimal(&mut s, self.draws);
        push_text(&mut s, " / ");
        push_signed(&mut s, self.count);
        proof {
            reveal_strlit("Drew ");
            reveal_strlit(" / ");
        }
        assert(s@ =~= seq!['D', 'r', 'e', 'w', ' '] + decimal(self.draws as nat) + seq![' ', '/', ' ']
            + signed_text(self.count as int));
        s
    }
}

} // verus!
