use vstd::prelude::*;
use vstd::string::StrSliceExecFns;
use vstd::string::StringExecFns;

use crate::codec;
use crate::codec::dec_chars;

verus! {

// ---------------------------------------------------------------------------
// Fixed-window rate limiting
// ---------------------------------------------------------------------------

/// One identity's attempt count and the instant its current window opened.
#[derive(Debug)]
pub struct RateEntry {
    pub user: String,
    pub count: u32,
    pub start: u64,
}

/// A fixed-window counter per identity: at most `max_attempts` admissions per
/// window; once a window has fully elapsed the count resets. Entries are
/// never removed, so memory grows with distinct identities seen.
#[derive(Debug)]
pub struct RateLimiter {
    pub entries: Vec<RateEntry>,
    pub max_attempts: u32,
    pub window: u64,
}

impl View for RateLimiter {
    type V = Seq<(Seq<char>, u32, u64)>;

    open spec fn view(&self) -> Seq<(Seq<char>, u32, u64)> {
        self.entries@.map(|i: int, e: RateEntry| (e.user@, e.count, e.start))
    }
}

/// What one admission decision does to the table: the next table and the
/// verdict. A window that has fully elapsed resets to a count of one; inside
/// the window the count grows until `max` is reached, after which the call is
/// denied without counting further. An identity never seen before gets a
/// fresh entry. A clock reading earlier than the window start counts as no
/// time elapsed.
pub open spec fn spec_is_allowed(
    s: Seq<(Seq<char>, u32, u64)>,
    max: u32,
    window: u64,
    user: Seq<char>,
    now: u64,
) -> (Seq<(Seq<char>, u32, u64)>, bool) {
    if exists|j: int| 0 <= j < s.len() && (#[trigger] s[j]).0 == user {
        let j = choose|j: int| 0 <= j < s.len() && (#[trigger] s[j]).0 == user;
        let e = s[j];
        let elapsed = if now >= e.2 {
            now - e.2
        } else {
            0
        };
        if elapsed > window {
            (s.update(j, (user, 1u32, now)), true)
        } else if e.1 < max {
            (s.update(j, (user, (e.1 + 1) as u32, e.2)), true)
        } else {
            (s, false)
        }
    } else {
        if max >= 1 {
            (s.push((user, 1u32, now)), true)
        } else {
            (s.push((user, 0u32, now)), false)
        }
    }
}

impl RateLimiter {
    /// Identities occur at most once in the table.
    pub open spec fn wf(&self) -> bool {
        forall|i: int, j: int|
            0 <= i < j < self@.len() ==> (#[trigger] self@[i]).0 != (#[trigger] self@[j]).0
    }

    /// A fresh limiter that admits up to `max_attempts` calls per identity
    /// within any window of `window_secs` seconds.
    pub fn new(max_attempts: u32, window_secs: u64) -> (r: RateLimiter)
        ensures
            r@ == Seq::<(Seq<char>, u32, u64)>::empty(),
            r.max_attempts == max_attempts,
            r.window == window_secs,
            r.wf(),
    {
        let r = RateLimiter { entries: Vec::new(), max_attempts, window: window_secs };
        proof {
            assert(r@ =~= Seq::<(Seq<char>, u32, u64)>::empty());
        }
        r
    }

    /// One admission decision for `user` as of the instant `now`; the state
    /// changes exactly as `spec_is_allowed` says.
    pub fn is_allowed_at(&mut self, user: &str, now: u64) -> (r: bool)
        requires
            old(self).wf(),
        ensures
            final(self).wf(),
            final(self).max_attempts == old(self).max_attempts,
            final(self).window == old(self).window,
            (final(self)@, r) == spec_is_allowed(
                old(self)@,
                old(self).max_attempts,
                old(self).window,
                user@,
                now,
            ),
    {
        let n = self.entries.len();
        let mut idx: usize = 0;
        while idx < n
            invariant
                idx <= n,
                n == self.entries@.len(),
                *self == *old(self),
                old(self).wf(),
                forall|k: int| 0 <= k < idx ==> (#[trigger] self@[k]).0 != user@,
            decreases n - idx,
        {
            let hit = {
                let e = &self.entries[idx];
                compare_str_eq(&e.user, user)
            };
            if hit {
                proof {
                    assert(self@[idx as int] == (
                        self.entries@[idx as int].user@,
                        self.entries@[idx as int].count,
                        self.entries@[idx as int].start,
                    ));
                    assert((#[trigger] old(self)@[idx as int]).0 == user@);
                    assert(exists|j: int| 0 <= j < old(self)@.len() && (#[trigger] old(self)@[j]).0 == user@);
                    let j = choose|j: int|
                        0 <= j < old(self)@.len() && (#[trigger] old(self)@[j]).0 == user@;
                    if j < idx as int {
                        assert((#[trigger] old(self)@[j]).0 != (#[trigger] old(self)@[idx as int]).0);
                    }
                    if j > idx as int {
                        assert((#[trigger] old(self)@[idx as int]).0 != (#[trigger] old(self)@[j]).0);
                    }
                    assert(j == idx as int);
                }
                let e_count = self.entries[idx].count;
                let e_start = self.entries[idx].start;
                let elapsed: u64 = if now >= e_start {
                    now - e_start
                } else {
                    0
                };
                if elapsed > self.window {
                    let who = self.entries[idx].user.clone();
                    self.entries[idx] = RateEntry { user: who, count: 1, start: now };
                    proof {
                        assert(self@ =~= old(self)@.update(idx as int, (user@, 1u32, now)));
                        lemma_update_keeps_wf(old(self)@, idx as int, (user@, 1u32, now), *self);
                    }
                    return true;
                } else if e_count < self.max_attempts {
                    let who = self.entries[idx].user.clone();
                    self.entries[idx] = RateEntry {
                        user: who,
                        count: e_count + 1,
                        start: e_start,
                    };
                    proof {
                        assert(self@ =~= old(self)@.update(
                            idx as int,
                            (user@, (e_count + 1) as u32, e_start),
                        ));
                        lemma_update_keeps_wf(
                            old(self)@,
                            idx as int,
                            (user@, (e_count + 1) as u32, e_start),
                            *self,
                        );
                    }
                    return true;
                } else {
                    return false;
                }
            }
            idx = idx + 1;
        }
        proof {
            assert(forall|j: int| 0 <= j < old(self)@.len() ==> (#[trigger] old(self)@[j]).0 != user@);
        }
        let fresh: u32 = if self.max_attempts >= 1 {
            1
        } else {
            0
        };
        let allowed = self.max_attempts >= 1;
        self.entries.push(RateEntry { user: user_to_string(user), count: fresh, start: now });
        proof {
            assert(self@ =~= old(self)@.push((user@, fresh, now)));
            assert forall|i: int, j: int|
                0 <= i < j < self@.len() implies (#[trigger] self@[i]).0 != (
            #[trigger] self@[j]).0 by {
                if j == self@.len() - 1 {
                    assert(old(self)@[i].0 != user@);
                } else {
                    assert(self@[i] == old(self)@[i] && self@[j] == old(self)@[j]);
                }
            }
        }
        allowed
    }

    /// One admission decision for `user` as of the current wall clock; the
    /// clock reading is some single instant, never negative.
    pub fn is_allowed(&mut self, user: &str) -> (r: bool)
        requires
            old(self).wf(),
        ensures
            final(self).wf(),
            final(self).max_attempts == old(self).max_attempts,
            final(self).window == old(self).window,
            exists|now: u64|
                (final(self)@, r) == #[trigger] spec_is_allowed(
                    old(self)@,
                    old(self).max_attempts,
                    old(self).window,
                    user@,
                    now,
                ),
    {
        let ghost s0 = self@;
        let t = crate::auth::unix_now();
        let now: u64 = if t < 0 {
            0
        } else {
            t as u64
        };
        let r = self.is_allowed_at(user, now);
        proof {
            assert((self@, r) == spec_is_allowed(s0, self.max_attempts, self.window, user@, now));
        }
        r
    }
}

/// Updating an entry to one that keeps its identity keeps identities unique.
proof fn lemma_update_keeps_wf(
    s0: Seq<(Seq<char>, u32, u64)>,
    j: int,
    v: (Seq<char>, u32, u64),
    after: RateLimiter,
)
    requires
        0 <= j < s0.len(),
        s0[j].0 == v.0,
        after@ == s0.update(j, v),
        forall|a: int, b: int|
            0 <= a < b < s0.len() ==> (#[trigger] s0[a]).0 != (#[trigger] s0[b]).0,
    ensures
        after.wf(),
{
    assert forall|a: int, b: int|
        0 <= a < b < after@.len() implies (#[trigger] after@[a]).0 != (#[trigger] after@[b]).0 by {
        assert(after@[a].0 == s0[a].0 && after@[b].0 == s0[b].0);
    }
}

/// Character-for-character equality of the stored identity with the probe.
fn compare_str_eq(stored: &String, probe: &str) -> (r: bool)
    ensures
        r == (stored@ == probe@),
{
    let probe_s = probe.to_owned();
    let r = *stored == probe_s;
    r
}

/// Makes an owned copy of an identity to store in the table.
fn user_to_string(user: &str) -> (r: String)
    ensures
        r@ == user@,
{
    user.to_owned()
}

// ---------------------------------------------------------------------------
// Human-verification challenge
// ---------------------------------------------------------------------------

/// A simple addition question and the answer that is expected, as text.
/// Stateless and single-use: the caller must not reuse one challenge for
/// more than one attempt.
#[derive(Debug)]
pub struct Challenge {
    pub question: String,
    pub expected_answer: String,
}

/// The question text for the two summands.
pub open spec fn spec_question(a: u64, b: u64) -> Seq<char> {
    "What is "@ + dec_chars(a as nat) + " + "@ + dec_chars(b as nat) + "?"@
}

/// The Unicode `White_Space` set, which is what `str::trim` removes from
/// either end of an answer.
pub open spec fn is_space_char(c: char) -> bool {
    c == '\t' || c == '\n' || c == '\u{B}' || c == '\u{C}' || c == '\r' || c == ' ' || c
        == '\u{85}' || c == '\u{A0}' || c == '\u{1680}' || ('\u{2000}' <= c && c <= '\u{200A}')
        || c == '\u{2028}' || c == '\u{2029}' || c == '\u{202F}' || c == '\u{205F}' || c
        == '\u{3000}'
}

pub open spec fn trim_front(s: Seq<char>) -> Seq<char>
    decreases s.len(),
{
    if s.len() > 0 && is_space_char(s[0]) {
        trim_front(s.drop_first())
    } else {
        s
    }
}

pub open spec fn trim_back(s: Seq<char>) -> Seq<char>
    decreases s.len(),
{
    if s.len() > 0 && is_space_char(s.last()) {
        trim_back(s.drop_last())
    } else {
        s
    }
}

/// The answer text with whitespace removed from both ends.
pub open spec fn trim_spaces(s: Seq<char>) -> Seq<char> {
    trim_back(trim_front(s))
}

proof fn lemma_trim_front_at(s: Seq<char>, i: int)
    requires
        0 <= i <= s.len(),
        forall|k: int| 0 <= k < i ==> is_space_char(#[trigger] s[k]),
        i < s.len() ==> !is_space_char(s[i]),
    ensures
        trim_front(s) == s.subrange(i, s.len() as int),
    decreases i,
{
    if i == 0 {
        assert(s.subrange(0, s.len() as int) =~= s);
    } else {
        let t = s.drop_first();
        assert(is_space_char(s[0]));
        lemma_trim_front_at(t, i - 1);
        assert(t.subrange(i - 1, t.len() as int) =~= s.subrange(i, s.len() as int));
    }
}

proof fn lemma_trim_back_at(s: Seq<char>, j: int)
    requires
        0 <= j <= s.len(),
        forall|k: int| j <= k < s.len() ==> is_space_char(#[trigger] s[k]),
        j > 0 ==> !is_space_char(s[j - 1]),
    ensures
        trim_back(s) == s.subrange(0, j),
    decreases s.len() - j,
{
    if j == s.len() {
        if s.len() > 0 && is_space_char(s.last()) {
            assert(!is_space_char(s[j - 1]));
            assert(false);
        }
        assert(s.subrange(0, j) =~= s);
    } else {
        let t = s.drop_last();
        assert(is_space_char(s.last()));
        lemma_trim_back_at(t, j);
        assert(t.subrange(0, j) =~= s.subrange(0, j));
    }
}

/// Relies on the rand crate: a uniformly chosen integer in `[1, 10)` from
/// the thread-local generator; nothing is assumed beyond the range.
#[verifier::external_body]
fn random_summand() -> (r: u64)
    ensures
        1 <= r < 10,
{
    rand::random_range(1..10)
}

impl Challenge {
    /// The challenge asking for `a + b`.
    pub fn new(a: u64, b: u64) -> (c: Challenge)
        requires
            1 <= a < 10,
            1 <= b < 10,
        ensures
            c.question@ == spec_question(a, b),
            c.expected_answer@ == dec_chars((a + b) as nat),
    {
        let mut q = String::new();
        q.append("What is ");
        codec::append_u64_dec(&mut q, a);
        q.append(" + ");
        codec::append_u64_dec(&mut q, b);
        q.append("?");
        let mut ans = String::new();
        codec::append_u64_dec(&mut ans, a + b);
        proof {
            assert(q@ =~= spec_question(a, b));
            assert(ans@ =~= dec_chars((a + b) as nat));
        }
        Challenge { question: q, expected_answer: ans }
    }

    /// A challenge over two random summands in `[1, 10)`.
    pub fn generate() -> (c: Challenge)
        ensures
            exists|a: u64, b: u64|
                1 <= a < 10 && 1 <= b < 10 && c.question@ == #[trigger] spec_question(a, b)
                    && c.expected_answer@ == dec_chars((a + b) as nat),
    {
        let a = random_summand();
        let b = random_summand();
        let c = Challenge::new(a, b);
        proof {
            assert(c.question@ == spec_question(a, b));
        }
        c
    }

    /// Whether `answer`, with surrounding whitespace ignored, is exactly
    /// the expected answer.
    pub fn check(&self, answer: &str) -> (r: bool)
        ensures
            r == (trim_spaces(answer@) == self.expected_answer@),
    {
        let n = answer.unicode_len();
        let mut i: usize = 0;
        while i < n && char_is_space(answer.get_char(i))
            invariant
                i <= n,
                n == answer@.len(),
                forall|k: int| 0 <= k < i ==> is_space_char(#[trigger] answer@[k]),
            decreases n - i,
        {
            i = i + 1;
        }
        proof {
            lemma_trim_front_at(answer@, i as int);
        }
        let mut j: usize = n;
        while j > i && char_is_space(answer.get_char(j - 1))
            invariant
                i <= j <= n,
                n == answer@.len(),
                forall|k: int| j <= k < n ==> is_space_char(#[trigger] answer@[k]),
            decreases j,
        {
            j = j - 1;
        }
        proof {
            let u = answer@.subrange(i as int, n as int);
            assert forall|k: int| j - i <= k < u.len() implies is_space_char(
                #[trigger] u[k],
            ) by {
                assert(u[k] == answer@[k + i]);
            }
            if j > i {
                assert(u[j - i - 1] == answer@[j - 1]);
            }
            lemma_trim_back_at(u, j - i);
            assert(u.subrange(0, j - i) =~= answer@.subrange(i as int, j as int));
        }
        let trimmed = answer.substring_char(i, j);
        let t = trimmed.to_owned();
        let r = t == self.expected_answer;
        r
    }
}

/// Whether `c` is in the Unicode `White_Space` set.
fn char_is_space(c: char) -> (r: bool)
    ensures
        r == is_space_char(c),
{
    let u = c as u32;
    (9 <= u && u <= 13) || u == 32 || u == 133 || u == 160 || u == 0x1680 || (0x2000 <= u && u
        <= 0x200A) || u == 0x2028 || u == 0x2029 || u == 0x202F || u == 0x205F || u == 0x3000
}

} // verus!
