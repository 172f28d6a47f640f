//! Structural dumps: plain-text rendering of containers and buffers, used
//! to observe which fragments are still pending. This is bookkeeping
//! output, not part of the buffer's logic.

use vstd::prelude::*;
use vstd::string::{StrSliceExecFns, StringExecFns};

verus! {

/// A value that can render itself for a structural dump.
pub trait DebugDump {
    /// The characters the dump shows for this value.
    spec fn dump(&self) -> Seq<char>;

    /// Render the value as the dump shows it.
    fn debug_dump(&self) -> (r: String)
        ensures
            r@ == self.dump(),
    ;
}

/// The character for a single decimal digit.
pub open spec fn decimal_digit(d: nat) -> char {
    if d == 0 {
        '0'
    } else if d == 1 {
        '1'
    } else if d == 2 {
        '2'
    } else if d == 3 {
        '3'
    } else if d == 4 {
        '4'
    } else if d == 5 {
        '5'
    } else if d == 6 {
        '6'
    } else if d == 7 {
        '7'
    } else if d == 8 {
        '8'
    } else {
        '9'
    }
}

/// The decimal rendering of a natural number, most significant digit first.
pub open spec fn decimal(n: nat) -> Seq<char>
    decreases n,
{
    if n < 10 {
        seq![decimal_digit(n)]
    } else {
        decimal(n / 10).push(decimal_digit(n % 10))
    }
}

/// The one-character string for a decimal digit.
fn digit_str(d: u8) -> (r: &'static str)
    requires
        d < 10,
    ensures
        r@ == seq![decimal_digit(d as nat)],
{
    proof {
        reveal_strlit("0");
        reveal_strlit("1");
        reveal_strlit("2");
        reveal_strlit("3");
        reveal_strlit("4");
        reveal_strlit("5");
        reveal_strlit("6");
        reveal_strlit("7");
        reveal_strlit("8");
        reveal_strlit("9");
    }
    if d == 0 {
        "0"
    } else if d == 1 {
        "1"
    } else if d == 2 {
        "2"
    } else if d == 3 {
        "3"
    } else if d == 4 {
        "4"
    } else if d == 5 {
        "5"
    } else if d == 6 {
        "6"
    } else if d == 7 {
        "7"
    } else if d == 8 {
        "8"
    } else {
        "9"
    }
}

/// Render an unsigned number in decimal.
fn u64_decimal(n: u64) -> (r: String)
    ensures
        r@ == decimal(n as nat),
    decreases n,
{
    let d = (n % 10) as u8;
    let last = digit_str(d);
    if n < 10 {
        last.to_owned()
    } else {
        let mut prefix = u64_decimal(n / 10);
        prefix.append(last);
        proof {
            assert(decimal((n / 10) as nat).push(decimal_digit((n % 10) as nat)) =~= decimal(
                (n / 10) as nat,
            ) + seq![decimal_digit((n % 10) as nat)]);
        }
        prefix
    }
}

impl DebugDump for u8 {
    open spec fn dump(&self) -> Seq<char> {
        decimal(*self as nat)
    }

    fn debug_dump(&self) -> (r: String) {
        u64_decimal(*self as u64)
    }
}

impl DebugDump for u32 {
    open spec fn dump(&self) -> Seq<char> {
        decimal(*self as nat)
    }

    fn debug_dump(&self) -> (r: String) {
        u64_decimal(*self as u64)
    }
}

impl DebugDump for u64 {
    open spec fn dump(&self) -> Seq<char> {
        decimal(*self as nat)
    }

    fn debug_dump(&self) -> (r: String) {
        u64_decimal(*self)
    }
}

impl DebugDump for i32 {
    open spec fn dump(&self) -> Seq<char> {
        if *self < 0 {
            seq!['-'] + decimal((-(*self as int)) as nat)
        } else {
            decimal(*self as nat)
        }
    }

    fn debug_dump(&self) -> (r: String) {
        proof {
            reveal_strlit("-");
        }
        if *self < 0 {
            let magnitude = (-(*self as i64)) as u64;
            let mut out = "-".to_owned();
            let digits = u64_decimal(magnitude);
            out.append(digits.as_str());
            proof {
                assert("-"@ =~= seq!['-']);
            }
            out
        } else {
            u64_decimal(*self as u64)
        }
    }
}

/// How one character is shown inside a quoted dump: quotes, backslashes and
/// the common control characters are escaped, every other character stands
/// as itself.
pub open spec fn escape_char(c: char) -> Seq<char> {
    if c == '"' {
        seq!['\\', '"']
    } else if c == '\\' {
        seq!['\\', '\\']
    } else if c == '\n' {
        seq!['\\', 'n']
    } else if c == '\r' {
        seq!['\\', 'r']
    } else if c == '\t' {
        seq!['\\', 't']
    } else {
        seq![c]
    }
}

/// A character sequence with each character escaped for a quoted dump.
pub open spec fn escaped(s: Seq<char>) -> Seq<char>
    decreases s.len(),
{
    if s.len() == 0 {
        Seq::empty()
    } else {
        escape_char(s[0]) + escaped(s.drop_first())
    }
}

/// Escaping one more character extends the escaped prefix.
proof fn lemma_escaped_snoc(s: Seq<char>, k: int)
    requires
        0 <= k < s.len(),
    ensures
        escaped(s.take(k + 1)) == escaped(s.take(k)) + escape_char(s[k]),
    decreases k,
{
    if k == 0 {
        let t1 = s.take(1);
        assert(t1.drop_first() =~= Seq::<char>::empty());
        assert(escaped(Seq::<char>::empty()) =~= Seq::<char>::empty());
        assert(s.take(0) =~= Seq::<char>::empty());
        assert(escaped(t1) == escape_char(t1[0]) + escaped(t1.drop_first()));
        assert(escaped(s.take(1)) =~= escaped(s.take(0)) + escape_char(s[0]));
    } else {
        lemma_escaped_snoc(s.drop_first(), k - 1);
        assert(s.take(k + 1).drop_first() =~= s.drop_first().take(k));
        assert(s.take(k).drop_first() =~= s.drop_first().take(k - 1));
        assert(escaped(s.take(k + 1)) =~= escaped(s.take(k)) + escape_char(s[k]));
    }
}

/// Append the escaped form of `c` to `out`, where `piece` is the
/// one-character string holding `c`.
fn push_escaped(out: &mut String, c: char, piece: &str)
    requires
        piece@ == seq![c],
    ensures
        final(out)@ == old(out)@ + escape_char(c),
{
    proof {
        reveal_strlit("\\\"");
        reveal_strlit("\\\\");
        reveal_strlit("\\n");
        reveal_strlit("\\r");
        reveal_strlit("\\t");
    }
    if c == '"' {
        out.append("\\\"");
        proof {
            assert("\\\""@ =~= seq!['\\', '"']);
        }
    } else if c == '\\' {
        out.append("\\\\");
        proof {
            assert("\\\\"@ =~= seq!['\\', '\\']);
        }
    } else if c == '\n' {
        out.append("\\n");
        proof {
            assert("\\n"@ =~= seq!['\\', 'n']);
        }
    } else if c == '\r' {
        out.append("\\r");
        proof {
            assert("\\r"@ =~= seq!['\\', 'r']);
        }
    } else if c == '\t' {
        out.append("\\t");
        proof {
            assert("\\t"@ =~= seq!['\\', 't']);
        }
    } else {
        out.append(piece);
    }
}

impl DebugDump for String {
    open spec fn dump(&self) -> Seq<char> {
        seq!['"'] + escaped(self@) + seq!['"']
    }

    fn debug_dump(&self) -> (r: String) {
        proof {
            reveal_strlit("\"");
        }
        let mut out = "\"".to_owned();
        proof {
            assert("\""@ =~= seq!['"']);
            assert(escaped(self@.take(0)) =~= Seq::<char>::empty());
            assert(out@ =~= seq!['"'] + escaped(self@.take(0)));
        }
        let s = self.as_str();
        let n = s.unicode_len();
        let mut i: usize = 0;
        while i < n
            invariant
                n == self@.len(),
                s@ == self@,
                i <= n,
                out@ == seq!['"'] + escaped(self@.take(i as int)),
            decreases n - i,
        {
            let c = s.get_char(i);
            let piece = s.substring_char(i, i + 1);
            proof {
                assert(piece@ =~= seq![self@[i as int]]);
            }
            push_escaped(&mut out, c, piece);
            proof {
                lemma_escaped_snoc(self@, i as int);
                assert(seq!['"'] + (escaped(self@.take(i as int)) + escape_char(self@[i as int]))
                    =~= (seq!['"'] + escaped(self@.take(i as int))) + escape_char(
                    self@[i as int],
                ));
            }
            i = i + 1;
        }
        out.append("\"");
        proof {
            assert(self@.take(n as int) =~= self@);
            assert((seq!['"'] + escaped(self@)) + "\""@ =~= seq!['"'] + escaped(self@) + seq!['"']);
        }
        out
    }
}

/// The dump of a list's items, separated by commas.
pub open spec fn joined_dump<I: DebugDump>(items: Seq<I>) -> Seq<char>
    decreases items.len(),
{
    if items.len() == 0 {
        Seq::empty()
    } else if items.len() == 1 {
        items[0].dump()
    } else {
        items[0].dump() + seq![',', ' '] + joined_dump(items.drop_first())
    }
}

/// Rendering one more item extends a non-empty joined dump by a separator
/// and that item's dump.
proof fn lemma_joined_dump_snoc<I: DebugDump>(items: Seq<I>, k: int)
    requires
        0 <= k < items.len(),
    ensures
        k == 0 ==> joined_dump(items.take(1)) == items[0].dump(),
        k > 0 ==> joined_dump(items.take(k + 1)) == joined_dump(items.take(k)) + seq![',', ' ']
            + items[k].dump(),
    decreases k,
{
    if k == 0 {
        assert(items.take(1).len() == 1);
        assert(items.take(1)[0] == items[0]);
    } else if k == 1 {
        let t2 = items.take(2);
        assert(t2.len() == 2);
        assert(t2.drop_first() =~= items.drop_first().take(1));
        assert(items.drop_first().take(1)[0] == items[1]);
        assert(joined_dump(items.drop_first().take(1)) == items[1].dump());
        assert(items.take(1)[0] == items[0]);
        assert(joined_dump(items.take(1)) == items[0].dump());
        assert(joined_dump(t2) == items[0].dump() + seq![',', ' '] + items[1].dump());
    } else {
        lemma_joined_dump_snoc(items.drop_first(), k - 1);
        assert(items.take(k + 1).drop_first() =~= items.drop_first().take(k));
        assert(items.take(k).drop_first() =~= items.drop_first().take(k - 1));
        assert(joined_dump(items.take(k + 1)) == items.take(k + 1)[0].dump() + seq![',', ' ']
            + joined_dump(items.drop_first().take(k)));
        assert(joined_dump(items.take(k)) == items.take(k)[0].dump() + seq![',', ' ']
            + joined_dump(items.drop_first().take(k - 1)));
        assert(joined_dump(items.take(k + 1)) =~= joined_dump(items.take(k)) + seq![',', ' ']
            + items[k].dump());
    }
}

/// The dump of a list of pending fragments, each preceded by a separator.
pub open spec fn frags_dump<I: DebugDump>(frags: Seq<I>) -> Seq<char>
    decreases frags.len(),
{
    if frags.len() == 0 {
        Seq::empty()
    } else {
        seq![',', ' '] + frags[0].dump() + frags_dump(frags.drop_first())
    }
}

/// Rendering one more fragment appends its separator and its dump.
pub proof fn lemma_frags_dump_snoc<I: DebugDump>(frags: Seq<I>, k: int)
    requires
        0 <= k < frags.len(),
    ensures
        frags_dump(frags.take(k + 1)) == frags_dump(frags.take(k)) + seq![',', ' ']
            + frags[k].dump(),
    decreases k,
{
    if k == 0 {
        let t1 = frags.take(1);
        assert(t1.drop_first() =~= Seq::<I>::empty());
        assert(frags_dump(Seq::<I>::empty()) =~= Seq::<char>::empty());
        assert(frags.take(0) =~= Seq::<I>::empty());
        assert(frags_dump(t1) == seq![',', ' '] + t1[0].dump() + frags_dump(t1.drop_first()));
        assert(frags_dump(frags.take(1)) =~= frags_dump(frags.take(0)) + seq![',', ' ']
            + frags[0].dump());
    } else {
        lemma_frags_dump_snoc(frags.drop_first(), k - 1);
        assert(frags.take(k + 1).drop_first() =~= frags.drop_first().take(k));
        assert(frags.take(k).drop_first() =~= frags.drop_first().take(k - 1));
        assert(frags_dump(frags.take(k + 1)) =~= frags_dump(frags.take(k)) + seq![',', ' ']
            + frags[k].dump());
    }
}

impl<I: DebugDump> DebugDump for Vec<I> {
    open spec fn dump(&self) -> Seq<char> {
        seq!['['] + joined_dump(self@) + seq![']']
    }

    fn debug_dump(&self) -> (r: String) {
        proof {
            reveal_strlit("[");
            reveal_strlit("]");
            reveal_strlit(", ");
        }
        let mut out = "[".to_owned();
        proof {
            assert("["@ =~= seq!['[']);
            assert(joined_dump(self@.take(0)) =~= Seq::<char>::empty());
            assert(out@ =~= seq!['['] + joined_dump(self@.take(0)));
        }
        let n = self.len();
        let mut i: usize = 0;
        while i < n
            invariant
                n == self@.len(),
                i <= n,
                out@ == seq!['['] + joined_dump(self@.take(i as int)),
            decreases n - i,
        {
            if i > 0 {
                out.append(", ");
                proof {
                    reveal_strlit(", ");
                    assert(", "@ =~= seq![',', ' ']);
                }
            }
            let piece = self[i].debug_dump();
            out.append(piece.as_str());
            proof {
                lemma_joined_dump_snoc(self@, i as int);
                if i == 0 {
                    assert(out@ =~= seq!['['] + joined_dump(self@.take(1)));
                } else {
                    assert(((seq!['['] + joined_dump(self@.take(i as int))) + seq![',', ' '])
                        + self@[i as int].dump() =~= seq!['['] + (joined_dump(
                        self@.take(i as int),
                    ) + seq![',', ' '] + self@[i as int].dump()));
                }
            }
            i = i + 1;
        }
        out.append("]");
        proof {
            assert(self@.take(n as int) =~= self@);
            assert((seq!['['] + joined_dump(self@)) + "]"@ =~= seq!['['] + joined_dump(self@)
                + seq![']']);
        }
        out
    }
}

} // verus!
