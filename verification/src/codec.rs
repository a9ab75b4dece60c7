//! The persisted form of an article index: a JSON object mapping each id to
//! its article record, written and read by this module alone.
//!
//! The grammar is fixed: entries in ascending id order, fields in a fixed
//! order, a `changed` field only when flags are pending, the timestamp as an
//! ISO-8601 string with offset, and no whitespace. [`enc_index`] is the exact
//! text the encoder produces; the reader accepts exactly that shape.

use vstd::prelude::*;
use crate::article::{Article, ArticleView};
use crate::changes::ChangeFlags;
use crate::index::ArticleIndex;
use crate::order::{lex_lt, str_cmp, str_eq, StrOrd};
use crate::timestamp::Timestamp;

verus! {

/// Relies on std's `String::push`: appends the given character to the end of
/// the string.
pub assume_specification[ String::push ](s: &mut String, ch: char)
    ensures
        final(s)@ == old(s)@.push(ch),
;

// ---------------------------------------------------------------------------
// The encoded text, as spec functions.
// ---------------------------------------------------------------------------
/// A character as it appears inside a quoted string: quote and backslash are
/// escaped with a backslash, everything else stands for itself.
pub open spec fn esc_char(c: char) -> Seq<char> {
    if c == '"' || c == '\\' {
        seq!['\\', c]
    } else {
        seq![c]
    }
}

/// A whole string body, escaped character by character.
pub open spec fn esc(s: Seq<char>) -> Seq<char>
    decreases s.len(),
{
    if s.len() == 0 {
        Seq::empty()
    } else {
        esc_char(s[0]) + esc(s.skip(1))
    }
}

/// A quoted, escaped string.
pub open spec fn enc_str(s: Seq<char>) -> Seq<char> {
    seq!['"'] + esc(s) + seq!['"']
}

/// The character for one decimal digit.
pub open spec fn digit_char(d: int) -> char {
    if d == 0 {
        '0'
    } else if d == 1 {
        '1'
    } else if d == 2 {
        '2'
    } else if d == 3 {
        '3'
    } else if d == 4 {
        '4'
    } else if d == 5 {
        '5'
    } else if d == 6 {
        '6'
    } else if d == 7 {
        '7'
    } else if d == 8 {
        '8'
    } else {
        '9'
    }
}

/// The value of a digit character, or -1 for any other character.
pub open spec fn char_digit(c: char) -> int {
    if c == '0' {
        0
    } else if c == '1' {
        1
    } else if c == '2' {
        2
    } else if c == '3' {
        3
    } else if c == '4' {
        4
    } else if c == '5' {
        5
    } else if c == '6' {
        6
    } else if c == '7' {
        7
    } else if c == '8' {
        8
    } else if c == '9' {
        9
    } else {
        -1
    }
}

pub open spec fn is_digit(c: char) -> bool {
    char_digit(c) >= 0
}

/// A non-negative number in decimal, without leading zeros.
pub open spec fn dec_digits(n: int) -> Seq<char>
    decreases n,
{
    if n < 10 {
        seq![digit_char(n)]
    } else {
        dec_digits(n / 10).push(digit_char(n % 10))
    }
}

/// Two decimal digits, zero-padded.
pub open spec fn dec2(n: int) -> Seq<char> {
    seq![digit_char(n / 10), digit_char(n % 10)]
}

/// Four decimal digits, zero-padded.
pub open spec fn dec4(n: int) -> Seq<char> {
    dec2(n / 100) + dec2(n % 100)
}

/// The timezone offset as sign, hours and minutes.
pub open spec fn enc_off(off: int) -> Seq<char> {
    if off >= 0 {
        seq!['+'] + dec2(off / 60) + seq![':'] + dec2(off % 60)
    } else {
        seq!['-'] + dec2((-off) / 60) + seq![':'] + dec2((-off) % 60)
    }
}

/// The quoted ISO-8601 form of a timestamp, offset included.
pub open spec fn enc_ts(t: Timestamp) -> Seq<char> {
    seq!['"'] + dec4(t.year as int) + seq!['-'] + dec2(t.month as int) + seq!['-'] + dec2(
        t.day as int,
    ) + seq!['T'] + dec2(t.hour as int) + seq![':'] + dec2(t.minute as int) + seq![':'] + dec2(
        t.second as int,
    ) + enc_off(t.offset_minutes as int) + seq!['"']
}

pub open spec fn enc_bool(b: bool) -> Seq<char> {
    if b {
        "true"@
    } else {
        "false"@
    }
}

/// The pending-changes array, in the fixed order deleted, starred, archived.
pub open spec fn enc_changed(f: ChangeFlags) -> Seq<char> {
    "["@ + (if f.deleted {
        "\"deleted\""@
    } else {
        Seq::empty()
    }) + (if f.starred {
        (if f.deleted {
            ","@
        } else {
            Seq::empty()
        }) + "\"starred\""@
    } else {
        Seq::empty()
    }) + (if f.archived {
        (if f.deleted || f.starred {
            ","@
        } else {
            Seq::empty()
        }) + "\"archived\""@
    } else {
        Seq::empty()
    }) + "]"@
}

/// A comma-separated list of quoted strings.
pub open spec fn enc_str_list(l: Seq<Seq<char>>) -> Seq<char>
    decreases l.len(),
{
    if l.len() == 0 {
        Seq::empty()
    } else if l.len() == 1 {
        enc_str(l[0])
    } else {
        enc_str_list(l.drop_last()) + ","@ + enc_str(l.last())
    }
}

/// The leading half of a record: id, pending changes, title, domain and the
/// author list.
pub open spec fn enc_article_head(a: ArticleView) -> Seq<char> {
    "{\"id\":"@ + enc_str(a.id) + (if a.changed.is_empty() {
        Seq::empty()
    } else {
        ",\"changed\":"@ + enc_changed(a.changed)
    }) + ",\"title\":"@ + enc_str(a.title) + ",\"domain\":"@ + enc_str(a.domain) + ",\"authors\":["@
        + enc_str_list(a.authors) + "]"@
}

/// The trailing half of a record: format, language, reading time, timestamp
/// and the two attribute booleans.
pub open spec fn enc_article_tail(a: ArticleView) -> Seq<char> {
    ",\"format\":"@ + enc_str(a.format) + ",\"language\":"@ + enc_str(a.language)
        + ",\"reading_time\":"@ + dec_digits(a.reading_time as int) + ",\"added\":"@ + enc_ts(
        a.added,
    ) + ",\"starred\":"@ + enc_bool(a.starred) + ",\"archived\":"@ + enc_bool(a.archived) + "}"@
}

/// One article record, fields in fixed order; `changed` only when pending.
#[verifier::opaque]
pub open spec fn enc_article(a: ArticleView) -> Seq<char> {
    enc_article_head(a) + enc_article_tail(a)
}

/// One index entry: the id as the key, then the record.
pub open spec fn enc_entry(a: ArticleView) -> Seq<char> {
    enc_str(a.id) + ":"@ + enc_article(a)
}

/// All entries, comma-separated, in the order of the sequence.
pub open spec fn enc_entries(s: Seq<ArticleView>) -> Seq<char>
    decreases s.len(),
{
    if s.len() == 0 {
        Seq::empty()
    } else if s.len() == 1 {
        enc_entry(s[0])
    } else {
        enc_entries(s.drop_last()) + ","@ + enc_entry(s.last())
    }
}

/// The whole persisted index.
pub open spec fn enc_index(s: Seq<ArticleView>) -> Seq<char> {
    "{\"articles\":{"@ + enc_entries(s) + "}}"@
}

// ---------------------------------------------------------------------------
// The encoder.
// ---------------------------------------------------------------------------
/// Escaping distributes over concatenation.
pub proof fn lemma_esc_concat(x: Seq<char>, y: Seq<char>)
    ensures
        esc(x + y) == esc(x) + esc(y),
    decreases x.len(),
{
    if x.len() == 0 {
        assert(x + y =~= y);
        assert(esc(x) + esc(y) =~= esc(y));
    } else {
        assert((x + y).skip(1) =~= x.skip(1) + y);
        lemma_esc_concat(x.skip(1), y);
        assert((x + y)[0] == x[0]);
        assert(esc_char(x[0]) + (esc(x.skip(1)) + esc(y)) =~= (esc_char(x[0]) + esc(x.skip(1)))
            + esc(y));
    }
}

fn push_digit(out: &mut String, d: u32)
    requires
        d <= 9,
    ensures
        final(out)@ == old(out)@.push(digit_char(d as int)),
{
    let c = if d == 0 {
        '0'
    } else if d == 1 {
        '1'
    } else if d == 2 {
        '2'
    } else if d == 3 {
        '3'
    } else if d == 4 {
        '4'
    } else if d == 5 {
        '5'
    } else if d == 6 {
        '6'
    } else if d == 7 {
        '7'
    } else if d == 8 {
        '8'
    } else {
        '9'
    };
    out.push(c);
}

fn push_u32(out: &mut String, n: u32)
    ensures
        final(out)@ == old(out)@ + dec_digits(n as int),
    decreases n,
{
    if n >= 10 {
        push_u32(out, n / 10);
        push_digit(out, n % 10);
        proof {
            assert(old(out)@ + dec_digits(n as int / 10).push(digit_char(n as int % 10)) =~= (old(
                out,
            )@ + dec_digits(n as int / 10)).push(digit_char(n as int % 10)));
        }
    } else {
        push_digit(out, n);
        proof {
            assert(old(out)@ + dec_digits(n as int) =~= old(out)@.push(digit_char(n as int)));
        }
    }
}

fn push_2d(out: &mut String, n: u32)
    requires
        n < 100,
    ensures
        final(out)@ == old(out)@ + dec2(n as int),
{
    push_digit(out, n / 10);
    push_digit(out, n % 10);
    proof {
        assert(old(out)@ + dec2(n as int) =~= old(out)@.push(digit_char(n as int / 10)).push(
            digit_char(n as int % 10),
        ));
    }
}

fn push_escaped(out: &mut String, s: &str)
    ensures
        final(out)@ == old(out)@ + esc(s@),
{
    let len = s.unicode_len();
    let mut i: usize = 0;
    proof {
        assert(out@ =~= old(out)@ + esc(s@.take(0)));
    }
    while i < len
        invariant
            0 <= i <= len,
            len == s@.len(),
            out@ == old(out)@ + esc(s@.take(i as int)),
        decreases len - i,
    {
        let c = s.get_char(i);
        if c == '"' || c == '\\' {
            out.push('\\');
            out.push(c);
        } else {
            out.push(c);
        }
        proof {
            assert(s@.take(i as int + 1) =~= s@.take(i as int) + seq![c]);
            lemma_esc_concat(s@.take(i as int), seq![c]);
            assert(seq![c].skip(1) =~= Seq::<char>::empty());
            assert(esc(Seq::<char>::empty()) =~= Seq::<char>::empty());
            assert(esc(seq![c]) == esc_char(c) + esc(seq![c].skip(1)));
            assert(esc_char(c) + Seq::<char>::empty() =~= esc_char(c));
            assert(esc(seq![c]) =~= esc_char(c));
            assert(out@ =~= old(out)@ + esc(s@.take(i as int + 1)));
        }
        i = i + 1;
    }
    proof {
        assert(s@.take(len as int) =~= s@);
    }
}

fn push_quoted(out: &mut String, s: &str)
    ensures
        final(out)@ == old(out)@ + enc_str(s@),
{
    out.push('"');
    push_escaped(out, s);
    out.push('"');
    proof {
        assert(final(out)@ =~= old(out)@ + enc_str(s@));
    }
}

fn push_bool(out: &mut String, b: bool)
    ensures
        final(out)@ == old(out)@ + enc_bool(b),
{
    if b {
        out.append("true");
    } else {
        out.append("false");
    }
}

#[verifier::rlimit(80)]
fn push_ts(out: &mut String, t: &Timestamp)
    requires
        t.wf(),
    ensures
        final(out)@ == old(out)@ + enc_ts(*t),
{
    out.push('"');
    push_2d(out, (t.year / 100) as u32);
    push_2d(out, (t.year % 100) as u32);
    out.push('-');
    push_2d(out, t.month as u32);
    out.push('-');
    push_2d(out, t.day as u32);
    out.push('T');
    push_2d(out, t.hour as u32);
    out.push(':');
    push_2d(out, t.minute as u32);
    out.push(':');
    push_2d(out, t.second as u32);
    if t.offset_minutes >= 0 {
        out.push('+');
        push_2d(out, (t.offset_minutes / 60) as u32);
        out.push(':');
        push_2d(out, (t.offset_minutes % 60) as u32);
    } else {
        out.push('-');
        let m = -t.offset_minutes;
        push_2d(out, (m / 60) as u32);
        out.push(':');
        push_2d(out, (m % 60) as u32);
    }
    out.push('"');
    proof {
        assert(final(out)@ =~= old(out)@ + enc_ts(*t));
    }
}

fn push_changed(out: &mut String, f: &ChangeFlags)
    ensures
        final(out)@ == old(out)@ + enc_changed(*f),
{
    out.push('[');
    let mut first = true;
    if f.deleted {
        out.append("\"deleted\"");
        first = false;
    }
    if f.starred {
        if !first {
            out.push(',');
        }
        out.append("\"starred\"");
        first = false;
    }
    if f.archived {
        if !first {
            out.push(',');
        }
        out.append("\"archived\"");
    }
    out.push(']');
    proof {
        assert("["@ =~= seq!['[']) by {
            reveal_strlit("[");
        }
        assert("]"@ =~= seq![']']) by {
            reveal_strlit("]");
        }
        assert(","@ =~= seq![',']) by {
            reveal_strlit(",");
        }
        assert(final(out)@ =~= old(out)@ + enc_changed(*f));
    }
}

/// One article record, appended to the output.
#[verifier::rlimit(80)]
fn push_article_head(out: &mut String, a: &Article)
    ensures
        final(out)@ == old(out)@ + enc_article_head(a@),
{
    out.append("{\"id\":");
    push_quoted(out, a.id.as_str());
    if !a.changed.empty() {
        out.append(",\"changed\":");
        push_changed(out, &a.changed);
    }
    out.append(",\"title\":");
    push_quoted(out, a.title.as_str());
    out.append(",\"domain\":");
    push_quoted(out, a.domain.as_str());
    out.append(",\"authors\":[");
    let mut i: usize = 0;
    let ghost mid = out@;
    while i < a.authors.len()
        invariant
            0 <= i <= a.authors.len(),
            a@.authors.len() == a.authors.len(),
            out@ == mid + enc_str_list(a@.authors.take(i as int)),
        decreases a.authors.len() - i,
    {
        if i > 0 {
            out.push(',');
        }
        push_quoted(out, a.authors[i].as_str());
        proof {
            assert(a@.authors.take(i as int + 1).drop_last() =~= a@.authors.take(i as int));
            assert(a@.authors.take(i as int + 1).last() == a@.authors[i as int]);
            assert(","@ =~= seq![',']) by {
                reveal_strlit(",");
            }
            assert(out@ =~= mid + enc_str_list(a@.authors.take(i as int + 1)));
        }
        i = i + 1;
    }
    proof {
        assert(a@.authors.take(a.authors.len() as int) =~= a@.authors);
    }
    out.append("]");
    proof {
        assert(final(out)@ =~= old(out)@ + enc_article_head(a@));
    }
}

#[verifier::rlimit(80)]
fn push_article_tail(out: &mut String, a: &Article)
    requires
        a@.added.wf(),
    ensures
        final(out)@ == old(out)@ + enc_article_tail(a@),
{
    out.append(",\"format\":");
    push_quoted(out, a.format.as_str());
    out.append(",\"language\":");
    push_quoted(out, a.language.as_str());
    out.append(",\"reading_time\":");
    push_u32(out, a.reading_time);
    out.append(",\"added\":");
    push_ts(out, &a.added);
    out.append(",\"starred\":");
    push_bool(out, a.starred);
    out.append(",\"archived\":");
    push_bool(out, a.archived);
    out.append("}");
    proof {
        assert("}"@ =~= seq!['}']) by {
            reveal_strlit("}");
        }
        assert(final(out)@ =~= old(out)@ + enc_article_tail(a@));
    }
}

/// One article record, appended to the output.
fn push_article(out: &mut String, a: &Article)
    requires
        a@.added.wf(),
    ensures
        final(out)@ == old(out)@ + enc_article(a@),
{
    push_article_head(out, a);
    push_article_tail(out, a);
    proof {
        reveal(enc_article);
        assert(final(out)@ =~= old(out)@ + enc_article(a@));
    }
}

/// Serializes an index to its persisted text: exactly [`enc_index`] of its
/// contents.
#[verifier::rlimit(80)]
pub fn encode_index(idx: &ArticleIndex) -> (r: String)
    requires
        idx.wf(),
    ensures
        r@ == enc_index(idx@),
{
    let mut out = String::new();
    out.append("{\"articles\":{");
    let ghost mid = out@;
    let mut i: usize = 0;
    while i < idx.articles.len()
        invariant
            0 <= i <= idx.articles.len(),
            idx@.len() == idx.articles.len(),
            idx.wf(),
            out@ == mid + enc_entries(idx@.take(i as int)),
        decreases idx.articles.len() - i,
    {
        if i > 0 {
            out.push(',');
        }
        let a = &idx.articles[i];
        proof {
            assert(a@ == idx@[i as int]);
            assert(idx@[i as int].added.wf());
        }
        push_quoted(&mut out, a.id.as_str());
        out.push(':');
        push_article(&mut out, a);
        proof {
            assert(idx@.take(i as int + 1).drop_last() =~= idx@.take(i as int));
            assert(idx@.take(i as int + 1).last() == idx@[i as int]);
            assert(","@ =~= seq![',']) by {
                reveal_strlit(",");
            }
            assert(":"@ =~= seq![':']) by {
                reveal_strlit(":");
            }
            assert(out@ =~= mid + enc_entries(idx@.take(i as int + 1)));
        }
        i = i + 1;
    }
    proof {
        assert(idx@.take(idx@.len() as int) =~= idx@);
    }
    out.append("}}");
    proof {
        assert(out@ =~= enc_index(idx@));
    }
    out
}

// ---------------------------------------------------------------------------
// The reader: a recursive-descent parser for exactly the encoded shape,
// stated first as spec functions over the text, then run by exec twins.
// ---------------------------------------------------------------------------
/// Reading the persisted index failed: the text is not a persisted index.
/// Callers recover by starting from an empty index.
#[derive(Debug)]
pub struct IndexLoadError;

/// One expected character.
pub open spec fn ps_char(s: Seq<char>, i: int, c: char) -> Option<int> {
    if 0 <= i < s.len() && s[i] == c {
        Some(i + 1)
    } else {
        None
    }
}

/// A fixed expected text.
pub open spec fn ps_lit(s: Seq<char>, i: int, lit: Seq<char>) -> Option<int> {
    if 0 <= i && i + lit.len() <= s.len() && s.subrange(i, i + lit.len()) == lit {
        Some(i + lit.len())
    } else {
        None
    }
}

/// The body of a quoted string after the opening quote: characters up to the
/// first unescaped quote, with the two escapes decoded.
pub open spec fn ps_str_body(s: Seq<char>, i: int) -> Option<(Seq<char>, int)>
    decreases s.len() - i,
{
    if i < 0 || i >= s.len() {
        None
    } else if s[i] == '"' {
        Some((Seq::empty(), i + 1))
    } else if s[i] == '\\' {
        if i + 1 < s.len() && (s[i + 1] == '"' || s[i + 1] == '\\') {
            match ps_str_body(s, i + 2) {
                Some((t, j)) => Some((seq![s[i + 1]] + t, j)),
                None => None,
            }
        } else {
            None
        }
    } else {
        match ps_str_body(s, i + 1) {
            Some((t, j)) => Some((seq![s[i]] + t, j)),
            None => None,
        }
    }
}

/// A whole quoted string.
pub open spec fn ps_string(s: Seq<char>, i: int) -> Option<(Seq<char>, int)> {
    match ps_char(s, i, '"') {
        Some(j) => ps_str_body(s, j),
        None => None,
    }
}

/// A successful string parse always moves forward.
pub proof fn lemma_ps_str_body_advances(s: Seq<char>, i: int)
    ensures
        match ps_str_body(s, i) {
            Some((t, j)) => i < j <= s.len(),
            None => true,
        },
    decreases s.len() - i,
{
    if 0 <= i < s.len() {
        lemma_ps_str_body_advances(s, i + 1);
        if i + 2 <= s.len() {
            lemma_ps_str_body_advances(s, i + 2);
        }
    }
}

/// Two decimal digits, as a value.
pub open spec fn ps_2d(s: Seq<char>, i: int) -> Option<(int, int)> {
    if 0 <= i && i + 2 <= s.len() && is_digit(s[i]) && is_digit(s[i + 1]) {
        Some((char_digit(s[i]) * 10 + char_digit(s[i + 1]), i + 2))
    } else {
        None
    }
}

/// The timezone offset: sign, hours, colon, minutes.
pub open spec fn ps_off(s: Seq<char>, i: int) -> Option<(int, int)> {
    if 0 <= i && i < s.len() && (s[i] == '+' || s[i] == '-') {
        match ps_2d(s, i + 1) {
            Some((h, j)) => match ps_char(s, j, ':') {
                Some(j2) => match ps_2d(s, j2) {
                    Some((m, j3)) => if h <= 23 && m <= 59 {
                        Some((if s[i] == '+' { h * 60 + m } else { -(h * 60 + m) }, j3))
                    } else {
                        None
                    },
                    None => None,
                },
                None => None,
            },
            None => None,
        }
    } else {
        None
    }
}

/// A quoted ISO-8601 timestamp with offset, range-checked.
pub open spec fn ps_ts(s: Seq<char>, i: int) -> Option<(Timestamp, int)> {
    match ps_char(s, i, '"') {
        Some(j0) => match ps_2d(s, j0) {
            Some((yh, j1)) => match ps_2d(s, j1) {
                Some((yl, j2)) => match ps_char(s, j2, '-') {
                    Some(j3) => match ps_2d(s, j3) {
                        Some((mo, j4)) => match ps_char(s, j4, '-') {
                            Some(j5) => match ps_2d(s, j5) {
                                Some((da, j6)) => match ps_char(s, j6, 'T') {
                                    Some(j7) => match ps_2d(s, j7) {
                                        Some((ho, j8)) => match ps_char(s, j8, ':') {
                                            Some(j9) => match ps_2d(s, j9) {
                                                Some((mi, j10)) => match ps_char(s, j10, ':') {
                                                    Some(j11) => match ps_2d(s, j11) {
                                                        Some((se, j12)) => match ps_off(s, j12) {
                                                            Some((off, j13)) => match ps_char(
                                                                s,
                                                                j13,
                                                                '"',
                                                            ) {
                                                                Some(j14) => if 1 <= mo <= 12 && 1
                                                                    <= da <= 31 && ho <= 23 && mi
                                                                    <= 59 && se <= 59 {
                                                                    Some(
                                                                        (
                                                                            Timestamp {
                                                                                year: (yh * 100
                                                                                    + yl) as u16,
                                                                                month: mo as u8,
                                                                                day: da as u8,
                                                                                hour: ho as u8,
                                                                                minute: mi as u8,
                                                                                second: se as u8,
                                                                                offset_minutes: off as i32,
                                                                            },
                                                                            j14,
                                                                        ),
                                                                    )
                                                                } else {
                                                                    None
                                                                },
                                                                None => None,
                                                            },
                                                            None => None,
                                                        },
                                                        None => None,
                                                    },
                                                    None => None,
                                                },
                                                None => None,
                                            },
                                            None => None,
                                        },
                                        None => None,
                                    },
                                    None => None,
                                },
                                None => None,
                            },
                            None => None,
                        },
                        None => None,
                    },
                    None => None,
                },
                None => None,
            },
            None => None,
        },
        None => None,
    }
}

/// The end of the run of digits starting at `i`.
pub open spec fn ps_digits_end(s: Seq<char>, i: int) -> int
    decreases s.len() - i,
{
    if 0 <= i < s.len() && is_digit(s[i]) {
        ps_digits_end(s, i + 1)
    } else {
        i
    }
}

/// The value of a digit string, most significant first.
pub open spec fn val_of(ds: Seq<char>) -> int
    decreases ds.len(),
{
    if ds.len() == 0 {
        0
    } else {
        val_of(ds.drop_last()) * 10 + char_digit(ds.last())
    }
}

/// A decimal number without leading zeros, fitting in a `u32`.
pub open spec fn ps_u32(s: Seq<char>, i: int) -> Option<(u32, int)> {
    let j = ps_digits_end(s, i);
    if j == i {
        None
    } else if s[i] == '0' && j > i + 1 {
        None
    } else {
        let v = val_of(s.subrange(i, j));
        if v > u32::MAX {
            None
        } else {
            Some((v as u32, j))
        }
    }
}

/// `true` or `false`.
pub open spec fn ps_bool(s: Seq<char>, i: int) -> Option<(bool, int)> {
    match ps_lit(s, i, "true"@) {
        Some(j) => Some((true, j)),
        None => match ps_lit(s, i, "false"@) {
            Some(j) => Some((false, j)),
            None => None,
        },
    }
}

/// The pending-changes array, in its one canonical order.
pub open spec fn ps_changed(s: Seq<char>, i: int) -> Option<(ChangeFlags, int)> {
    match ps_char(s, i, '[') {
        Some(j0) => {
            let (del, j1) = match ps_lit(s, j0, "\"deleted\""@) {
                Some(j) => (true, j),
                None => (false, j0),
            };
            let (sta, j2) = match ps_lit(
                s,
                j1,
                if del {
                    ",\"starred\""@
                } else {
                    "\"starred\""@
                },
            ) {
                Some(j) => (true, j),
                None => (false, j1),
            };
            let (arc, j3) = match ps_lit(
                s,
                j2,
                if del || sta {
                    ",\"archived\""@
                } else {
                    "\"archived\""@
                },
            ) {
                Some(j) => (true, j),
                None => (false, j2),
            };
            match ps_char(s, j3, ']') {
                Some(j4) => Some((ChangeFlags { deleted: del, starred: sta, archived: arc }, j4)),
                None => None,
            }
        },
        None => None,
    }
}

/// The elements after the first of a quoted-string list, each preceded by a
/// comma; stops before anything else.
pub open spec fn ps_items_rest(s: Seq<char>, i: int) -> Option<(Seq<Seq<char>>, int)>
    decreases s.len() - i,
{
    match ps_char(s, i, ',') {
        Some(j0) => match ps_string(s, j0) {
            Some((x, j)) => if j0 < j <= s.len() {
                match ps_items_rest(s, j) {
                    Some((rest, e)) => Some((seq![x] + rest, e)),
                    None => None,
                }
            } else {
                None
            },
            None => None,
        },
        None => Some((Seq::empty(), i)),
    }
}

/// A whole quoted-string list, after its opening bracket; consumes the
/// closing bracket.
pub open spec fn ps_items(s: Seq<char>, i: int) -> Option<(Seq<Seq<char>>, int)> {
    match ps_char(s, i, ']') {
        Some(j) => Some((Seq::empty(), j)),
        None => match ps_string(s, i) {
            Some((x, j)) => match ps_items_rest(s, j) {
                Some((rest, e)) => match ps_char(s, e, ']') {
                    Some(e2) => Some((seq![x] + rest, e2)),
                    None => None,
                },
                None => None,
            },
            None => None,
        },
    }
}

/// One article record, fields in the fixed order, `changed` optional.
pub open spec fn ps_article(s: Seq<char>, i: int) -> Option<(ArticleView, int)> {
    match ps_lit(s, i, "{\"id\":"@) {
        Some(j0) => match ps_string(s, j0) {
            Some((id, j1)) => {
                let (changed, j2) = match ps_lit(s, j1, ",\"changed\":"@) {
                    Some(jc) => match ps_changed(s, jc) {
                        Some((f, j)) => (Some(f), j),
                        None => (None, j1),
                    },
                    None => (Some(ChangeFlags { deleted: false, starred: false, archived: false }), j1),
                };
                match changed {
                    None => None,
                    Some(flags) => match ps_lit(s, j2, ",\"title\":"@) {
                        Some(j3) => match ps_string(s, j3) {
                            Some((title, j4)) => match ps_lit(s, j4, ",\"domain\":"@) {
                                Some(j5) => match ps_string(s, j5) {
                                    Some((domain, j6)) => match ps_lit(s, j6, ",\"authors\":["@) {
                                        Some(j7) => match ps_items(s, j7) {
                                            Some((authors, j8)) => ps_article_tail(
                                                s,
                                                j8,
                                                id,
                                                flags,
                                                title,
                                                domain,
                                                authors,
                                            ),
                                            None => None,
                                        },
                                        None => None,
                                    },
                                    None => None,
                                },
                                None => None,
                            },
                            None => None,
                        },
                        None => None,
                    },
                }
            },
            None => None,
        },
        None => None,
    }
}

/// The trailing fields of a record, combined with the leading ones.
pub open spec fn ps_article_tail(
    s: Seq<char>,
    i: int,
    id: Seq<char>,
    changed: ChangeFlags,
    title: Seq<char>,
    domain: Seq<char>,
    authors: Seq<Seq<char>>,
) -> Option<(ArticleView, int)> {
    match ps_lit(s, i, ",\"format\":"@) {
        Some(j0) => match ps_string(s, j0) {
            Some((format, j1)) => match ps_lit(s, j1, ",\"language\":"@) {
                Some(j2) => match ps_string(s, j2) {
                    Some((language, j3)) => match ps_lit(s, j3, ",\"reading_time\":"@) {
                        Some(j4) => match ps_u32(s, j4) {
                            Some((rt, j5)) => match ps_lit(s, j5, ",\"added\":"@) {
                                Some(j6) => match ps_ts(s, j6) {
                                    Some((added, j7)) => match ps_lit(s, j7, ",\"starred\":"@) {
                                        Some(j8) => match ps_bool(s, j8) {
                                            Some((starred, j9)) => match ps_lit(
                                                s,
                                                j9,
                                                ",\"archived\":"@,
                                            ) {
                                                Some(j10) => match ps_bool(s, j10) {
                                                    Some((archived, j11)) => match ps_char(
                                                        s,
                                                        j11,
                                                        '}',
                                                    ) {
                                                        Some(j12) => Some(
                                                            (
                                                                ArticleView {
                                                                    id,
                                                                    changed,
                                                                    title,
                                                                    domain,
                                                                    authors,
                                                                    format,
                                                                    language,
                                                                    reading_time: rt,
                                                                    added,
                                                                    starred,
                                                                    archived,
                                                                },
                                                                j12,
                                                            ),
                                                        ),
                                                        None => None,
                                                    },
                                                    None => None,
                                                },
                                                None => None,
                                            },
                                            None => None,
                                        },
                                        None => None,
                                    },
                                    None => None,
                                },
                                None => None,
                            },
                            None => None,
                        },
                        None => None,
                    },
                    None => None,
                },
                None => None,
            },
            None => None,
        },
        None => None,
    }
}

/// One index entry: a key, a colon, a record whose id must equal the key.
pub open spec fn ps_entry(s: Seq<char>, i: int) -> Option<(ArticleView, int)> {
    match ps_string(s, i) {
        Some((key, j)) => match ps_char(s, j, ':') {
            Some(j2) => match ps_article(s, j2) {
                Some((a, j3)) => if a.id == key {
                    Some((a, j3))
                } else {
                    None
                },
                None => None,
            },
            None => None,
        },
        None => None,
    }
}

/// The entries after the first, each preceded by a comma.
pub open spec fn ps_entries_rest(s: Seq<char>, i: int) -> Option<(Seq<ArticleView>, int)>
    decreases s.len() - i,
{
    match ps_char(s, i, ',') {
        Some(j0) => match ps_entry(s, j0) {
            Some((a, j)) => if j0 < j <= s.len() {
                match ps_entries_rest(s, j) {
                    Some((rest, e)) => Some((seq![a] + rest, e)),
                    None => None,
                }
            } else {
                None
            },
            None => None,
        },
        None => Some((Seq::empty(), i)),
    }
}

/// All entries of the index object, stopping before the closing brace.
pub open spec fn ps_entries(s: Seq<char>, i: int) -> Option<(Seq<ArticleView>, int)> {
    if 0 <= i < s.len() && s[i] == '}' {
        Some((Seq::empty(), i))
    } else {
        match ps_entry(s, i) {
            Some((a, j)) => match ps_entries_rest(s, j) {
                Some((rest, e)) => Some((seq![a] + rest, e)),
                None => None,
            },
            None => None,
        }
    }
}

/// Keys in strictly ascending order, each one above its neighbour.
pub open spec fn adjacent_sorted(l: Seq<ArticleView>) -> bool {
    forall|k: int| 0 <= k < l.len() - 1 ==> lex_lt(#[trigger] l[k].id, l[k + 1].id)
}

/// The value of a persisted text: the article sequence it denotes, or
/// nothing when the text is not exactly a persisted index.
pub open spec fn dec_index(s: Seq<char>) -> Option<Seq<ArticleView>> {
    match ps_lit(s, 0, "{\"articles\":{"@) {
        Some(j) => match ps_entries(s, j) {
            Some((list, j2)) => match ps_lit(s, j2, "}}"@) {
                Some(j3) => if j3 == s.len() && adjacent_sorted(list) {
                    Some(list)
                } else {
                    None
                },
                None => None,
            },
            None => None,
        },
        None => None,
    }
}

// ---------------------------------------------------------------------------
// Exec twins of the spec parsers: each returns exactly what its spec twin
// denotes.
// ---------------------------------------------------------------------------
/// The characters of a string, for index-based parsing.
fn chars_of(s: &str) -> (r: Vec<char>)
    ensures
        r@ == s@,
{
    let len = s.unicode_len();
    let mut r: Vec<char> = Vec::new();
    let mut i: usize = 0;
    while i < len
        invariant
            0 <= i <= len,
            len == s@.len(),
            r@ == s@.take(i as int),
        decreases len - i,
    {
        r.push(s.get_char(i));
        proof {
            assert(r@ =~= s@.take(i as int + 1));
        }
        i = i + 1;
    }
    proof {
        assert(s@.take(len as int) =~= s@);
    }
    r
}

/// The decimal value of a digit character, -1 otherwise.
fn digit_val(c: char) -> (r: i32)
    ensures
        r == char_digit(c),
{
    if c == '0' {
        0
    } else if c == '1' {
        1
    } else if c == '2' {
        2
    } else if c == '3' {
        3
    } else if c == '4' {
        4
    } else if c == '5' {
        5
    } else if c == '6' {
        6
    } else if c == '7' {
        7
    } else if c == '8' {
        8
    } else if c == '9' {
        9
    } else {
        -1
    }
}

fn parse_char(v: &Vec<char>, i: usize, c: char) -> (r: Option<usize>)
    ensures
        match (r, ps_char(v@, i as int, c)) {
            (Some(a), Some(b)) => a as int == b,
            (None, None) => true,
            _ => false,
        },
{
    if i < v.len() && v[i] == c {
        Some(i + 1)
    } else {
        None
    }
}

fn parse_lit(v: &Vec<char>, i: usize, lit: &str) -> (r: Option<usize>)
    ensures
        match (r, ps_lit(v@, i as int, lit@)) {
            (Some(a), Some(b)) => a as int == b,
            (None, None) => true,
            _ => false,
        },
{
    let n = lit.unicode_len();
    if i > v.len() || n > v.len() - i {
        return None;
    }
    let mut k: usize = 0;
    while k < n
        invariant
            0 <= k <= n,
            n == lit@.len(),
            i + n <= v.len(),
            v@.subrange(i as int, i as int + k) == lit@.subrange(0, k as int),
        decreases n - k,
    {
        if v[i + k] != lit.get_char(k) {
            proof {
                if v@.subrange(i as int, i as int + lit@.len()) == lit@ {
                    assert(v@.subrange(i as int, i as int + lit@.len())[k as int] == lit@[k as int]);
                }
            }
            return None;
        }
        proof {
            assert(v@.subrange(i as int, i as int + k + 1) =~= lit@.subrange(0, k as int + 1)) by {
                assert forall|m: int| 0 <= m < k + 1 implies #[trigger] v@.subrange(
                    i as int,
                    i as int + k + 1,
                )[m] == lit@.subrange(0, k as int + 1)[m] by {
                    if m < k {
                        assert(v@.subrange(i as int, i as int + k)[m] == lit@.subrange(
                            0,
                            k as int,
                        )[m]);
                    }
                }
            }
        }
        k = k + 1;
    }
    proof {
        assert(v@.subrange(i as int, i as int + lit@.len()) =~= lit@);
    }
    Some(i + n)
}

fn parse_str_body(v: &Vec<char>, i: usize) -> (r: Option<(String, usize)>)
    ensures
        match (r, ps_str_body(v@, i as int)) {
            (Some((x, a)), Some((t, b))) => x@ == t && a as int == b,
            (None, None) => true,
            _ => false,
        },
    decreases v.len() - i,
{
    if i >= v.len() {
        return None;
    }
    let c = v[i];
    if c == '"' {
        let mut out = String::new();
        Some((out, i + 1))
    } else if c == '\\' {
        if i + 1 < v.len() && (v[i + 1] == '"' || v[i + 1] == '\\') {
            let e = v[i + 1];
            match parse_str_body(v, i + 2) {
                Some((tail, j)) => {
                    let mut out = String::new();
                    out.push(e);
                    out.append(tail.as_str());
                    proof {
                        assert(out@ =~= seq![v@[i as int + 1]] + tail@);
                    }
                    Some((out, j))
                },
                None => None,
            }
        } else {
            None
        }
    } else {
        match parse_str_body(v, i + 1) {
            Some((tail, j)) => {
                let mut out = String::new();
                out.push(c);
                out.append(tail.as_str());
                proof {
                    assert(out@ =~= seq![v@[i as int]] + tail@);
                }
                Some((out, j))
            },
            None => None,
        }
    }
}

fn parse_string(v: &Vec<char>, i: usize) -> (r: Option<(String, usize)>)
    ensures
        match (r, ps_string(v@, i as int)) {
            (Some((x, a)), Some((t, b))) => x@ == t && a as int == b,
            (None, None) => true,
            _ => false,
        },
{
    match parse_char(v, i, '"') {
        Some(j) => parse_str_body(v, j),
        None => None,
    }
}

fn parse_2d(v: &Vec<char>, i: usize) -> (r: Option<(u32, usize)>)
    ensures
        match (r, ps_2d(v@, i as int)) {
            (Some((x, a)), Some((t, b))) => x as int == t && a as int == b && x < 100,
            (None, None) => true,
            _ => false,
        },
{
    if i < v.len() && i + 1 < v.len() {
        let d0 = digit_val(v[i]);
        let d1 = digit_val(v[i + 1]);
        if d0 >= 0 && d1 >= 0 {
            Some(((d0 * 10 + d1) as u32, i + 2))
        } else {
            None
        }
    } else {
        None
    }
}

fn parse_off(v: &Vec<char>, i: usize) -> (r: Option<(i32, usize)>)
    ensures
        match (r, ps_off(v@, i as int)) {
            (Some((x, a)), Some((t, b))) => x as int == t && a as int == b,
            (None, None) => true,
            _ => false,
        },
{
    if i < v.len() && (v[i] == '+' || v[i] == '-') {
        let plus = v[i] == '+';
        match parse_2d(v, i + 1) {
            Some((h, j)) => match parse_char(v, j, ':') {
                Some(j2) => match parse_2d(v, j2) {
                    Some((m, j3)) => {
                        if h <= 23 && m <= 59 {
                            let total = (h * 60 + m) as i32;
                            Some((if plus { total } else { -total }, j3))
                        } else {
                            None
                        }
                    },
                    None => None,
                },
                None => None,
            },
            None => None,
        }
    } else {
        None
    }
}

#[verifier::rlimit(80)]
fn parse_ts(v: &Vec<char>, i: usize) -> (r: Option<(Timestamp, usize)>)
    ensures
        match (r, ps_ts(v@, i as int)) {
            (Some((x, a)), Some((t, b))) => x == t && a as int == b && x.wf(),
            (None, None) => true,
            _ => false,
        },
{
    let j0 = match parse_char(v, i, '"') {
        Some(j) => j,
        None => {
            return None;
        },
    };
    let (yh, j1) = match parse_2d(v, j0) {
        Some(x) => x,
        None => {
            return None;
        },
    };
    let (yl, j2) = match parse_2d(v, j1) {
        Some(x) => x,
        None => {
            return None;
        },
    };
    let j3 = match parse_char(v, j2, '-') {
        Some(j) => j,
        None => {
            return None;
        },
    };
    let (mo, j4) = match parse_2d(v, j3) {
        Some(x) => x,
        None => {
            return None;
        },
    };
    let j5 = match parse_char(v, j4, '-') {
        Some(j) => j,
        None => {
            return None;
        },
    };
    let (da, j6) = match parse_2d(v, j5) {
        Some(x) => x,
        None => {
            return None;
        },
    };
    let j7 = match parse_char(v, j6, 'T') {
        Some(j) => j,
        None => {
            return None;
        },
    };
    let (ho, j8) = match parse_2d(v, j7) {
        Some(x) => x,
        None => {
            return None;
        },
    };
    let j9 = match parse_char(v, j8, ':') {
        Some(j) => j,
        None => {
            return None;
        },
    };
    let (mi, j10) = match parse_2d(v, j9) {
        Some(x) => x,
        None => {
            return None;
        },
    };
    let j11 = match parse_char(v, j10, ':') {
        Some(j) => j,
        None => {
            return None;
        },
    };
    let (se, j12) = match parse_2d(v, j11) {
        Some(x) => x,
        None => {
            return None;
        },
    };
    let (off, j13) = match parse_off(v, j12) {
        Some(x) => x,
        None => {
            return None;
        },
    };
    let j14 = match parse_char(v, j13, '"') {
        Some(j) => j,
        None => {
            return None;
        },
    };
    if 1 <= mo && mo <= 12 && 1 <= da && da <= 31 && ho <= 23 && mi <= 59 && se <= 59 {
        Some(
            (
                Timestamp {
                    year: (yh * 100 + yl) as u16,
                    month: mo as u8,
                    day: da as u8,
                    hour: ho as u8,
                    minute: mi as u8,
                    second: se as u8,
                    offset_minutes: off,
                },
                j14,
            ),
        )
    } else {
        None
    }
}

fn parse_bool(v: &Vec<char>, i: usize) -> (r: Option<(bool, usize)>)
    ensures
        match (r, ps_bool(v@, i as int)) {
            (Some((x, a)), Some((t, b))) => x == t && a as int == b,
            (None, None) => true,
            _ => false,
        },
{
    match parse_lit(v, i, "true") {
        Some(j) => Some((true, j)),
        None => match parse_lit(v, i, "false") {
            Some(j) => Some((false, j)),
            None => None,
        },
    }
}

fn parse_changed(v: &Vec<char>, i: usize) -> (r: Option<(ChangeFlags, usize)>)
    ensures
        match (r, ps_changed(v@, i as int)) {
            (Some((x, a)), Some((t, b))) => x == t && a as int == b,
            (None, None) => true,
            _ => false,
        },
{
    let j0 = match parse_char(v, i, '[') {
        Some(j) => j,
        None => {
            return None;
        },
    };
    let (del, j1) = match parse_lit(v, j0, "\"deleted\"") {
        Some(j) => (true, j),
        None => (false, j0),
    };
    let starred_lit = if del {
        ",\"starred\""
    } else {
        "\"starred\""
    };
    let (sta, j2) = match parse_lit(v, j1, starred_lit) {
        Some(j) => (true, j),
        None => (false, j1),
    };
    let archived_lit = if del || sta {
        ",\"archived\""
    } else {
        "\"archived\""
    };
    let (arc, j3) = match parse_lit(v, j2, archived_lit) {
        Some(j) => (true, j),
        None => (false, j2),
    };
    match parse_char(v, j3, ']') {
        Some(j4) => Some((ChangeFlags { deleted: del, starred: sta, archived: arc }, j4)),
        None => None,
    }
}

fn parse_items_rest(v: &Vec<char>, i: usize) -> (r: Option<(Vec<String>, usize)>)
    ensures
        match (r, ps_items_rest(v@, i as int)) {
            (Some((x, a)), Some((t, b))) => x.deep_view() == t && a as int == b,
            (None, None) => true,
            _ => false,
        },
    decreases v.len() - i,
{
    match parse_char(v, i, ',') {
        Some(j0) => match parse_string(v, j0) {
            Some((x, j)) => {
                if j0 < j && j <= v.len() {
                    match parse_items_rest(v, j) {
                        Some((mut rest, e)) => {
                            rest.insert(0, x);
                            proof {
                                assert(rest.deep_view() =~= seq![rest@[0]@] + rest.deep_view().skip(
                                    1,
                                ));
                            }
                            Some((rest, e))
                        },
                        None => None,
                    }
                } else {
                    None
                }
            },
            None => None,
        },
        None => Some((Vec::new(), i)),
    }
}

fn parse_items(v: &Vec<char>, i: usize) -> (r: Option<(Vec<String>, usize)>)
    ensures
        match (r, ps_items(v@, i as int)) {
            (Some((x, a)), Some((t, b))) => x.deep_view() == t && a as int == b,
            (None, None) => true,
            _ => false,
        },
{
    match parse_char(v, i, ']') {
        Some(j) => Some((Vec::new(), j)),
        None => match parse_string(v, i) {
            Some((x, j)) => match parse_items_rest(v, j) {
                Some((mut rest, e)) => match parse_char(v, e, ']') {
                    Some(e2) => {
                        rest.insert(0, x);
                        proof {
                            assert(rest.deep_view() =~= seq![rest@[0]@] + rest.deep_view().skip(1));
                        }
                        Some((rest, e2))
                    },
                    None => None,
                },
                None => None,
            },
            None => None,
        },
    }
}

// ---------------------------------------------------------------------------
// Digit-run arithmetic, for the number parser.
// ---------------------------------------------------------------------------
pub open spec fn pow10(k: nat) -> int
    decreases k,
{
    if k == 0 {
        1
    } else {
        10 * pow10((k - 1) as nat)
    }
}

pub proof fn lemma_pow10_pos(k: nat)
    ensures
        pow10(k) >= 1,
    decreases k,
{
    if k > 0 {
        lemma_pow10_pos((k - 1) as nat);
    }
}

pub open spec fn all_digits(ds: Seq<char>) -> bool {
    forall|k: int| 0 <= k < ds.len() ==> is_digit(#[trigger] ds[k])
}

pub proof fn lemma_val_nonneg(ds: Seq<char>)
    requires
        all_digits(ds),
    ensures
        val_of(ds) >= 0,
    decreases ds.len(),
{
    if ds.len() > 0 {
        assert forall|k: int| 0 <= k < ds.drop_last().len() implies is_digit(
            #[trigger] ds.drop_last()[k],
        ) by {
            assert(ds.drop_last()[k] == ds[k]);
        }
        lemma_val_nonneg(ds.drop_last());
        assert(is_digit(ds[ds.len() - 1]));
    }
}

/// The value of a concatenation of digit strings.
pub proof fn lemma_val_append(a: Seq<char>, b: Seq<char>)
    ensures
        val_of(a + b) == val_of(a) * pow10(b.len()) + val_of(b),
    decreases b.len(),
{
    if b.len() == 0 {
        assert(a + b =~= a);
    } else {
        let b0 = b.drop_last();
        lemma_val_append(a, b0);
        assert((a + b).drop_last() =~= a + b0);
        assert((a + b).last() == b.last());
        assert(pow10(b.len()) == 10 * pow10(b0.len()));
        assert(val_of(a) * pow10(b0.len()) * 10 == val_of(a) * (10 * pow10(b0.len())))
            by (nonlinear_arith);
    }
}

/// Position and content facts about the digit run starting at `i`.
pub proof fn lemma_digits_end_props(s: Seq<char>, i: int)
    requires
        0 <= i <= s.len(),
    ensures
        i <= ps_digits_end(s, i) <= s.len(),
        forall|k: int| i <= k < ps_digits_end(s, i) ==> is_digit(#[trigger] s[k]),
        ps_digits_end(s, i) == s.len() || !is_digit(s[ps_digits_end(s, i)]),
    decreases s.len() - i,
{
    if i < s.len() && is_digit(s[i]) {
        lemma_digits_end_props(s, i + 1);
    }
}

fn parse_u32(v: &Vec<char>, i: usize) -> (r: Option<(u32, usize)>)
    requires
        i <= v.len(),
    ensures
        match (r, ps_u32(v@, i as int)) {
            (Some((x, a)), Some((t, b))) => x == t && a as int == b,
            (None, None) => true,
            _ => false,
        },
{
    proof {
        lemma_digits_end_props(v@, i as int);
    }
    let ghost e = ps_digits_end(v@, i as int);
    if i >= v.len() || digit_val(v[i]) < 0 {
        proof {
            assert(e == i);
        }
        return None;
    }
    if v[i] == '0' {
        if i + 1 < v.len() && digit_val(v[i + 1]) >= 0 {
            proof {
                if e <= i + 1 {
                    assert(is_digit(v@[e]));
                }
            }
            return None;
        }
        proof {
            assert(e == ps_digits_end(v@, i as int + 1));
            assert(e == i + 1);
            let run = v@.subrange(i as int, i as int + 1);
            assert(run.drop_last() =~= Seq::<char>::empty());
            assert(run.last() == '0');
            assert(val_of(Seq::<char>::empty()) == 0);
            assert(val_of(run) == val_of(run.drop_last()) * 10 + char_digit(run.last()));
            assert(val_of(run) == 0);
        }
        return Some((0, i + 1));
    }
    let mut j: usize = i;
    let mut acc: u32 = 0;
    proof {
        assert(v@.subrange(i as int, i as int) =~= Seq::<char>::empty());
    }
    while j < v.len() && digit_val(v[j]) >= 0
        invariant
            i <= j <= v.len(),
            i < v.len(),
            e == ps_digits_end(v@, i as int),
            i <= e <= v@.len(),
            forall|k: int| i <= k < e ==> is_digit(#[trigger] v@[k]),
            e == v@.len() || !is_digit(v@[e]),
            v@[i as int] != '0',
            is_digit(v@[i as int]),
            forall|k: int| i <= k < j ==> is_digit(#[trigger] v@[k]),
            acc as int == val_of(v@.subrange(i as int, j as int)),
        decreases v.len() - j,
    {
        let d = digit_val(v[j]) as u32;
        if acc > 429496729 || (acc == 429496729 && d > 5) {
            proof {
                assert(is_digit(v@[j as int]));
                if e <= j {
                    assert(is_digit(v@[e]));
                }
                assert(e >= j + 1);
                let pre = v@.subrange(i as int, j as int + 1);
                assert(pre.drop_last() =~= v@.subrange(i as int, j as int));
                assert(pre.last() == v@[j as int]);
                assert(val_of(pre) == acc as int * 10 + d);
                assert(val_of(pre) > u32::MAX);
                let rest = v@.subrange(j as int + 1, e);
                assert(v@.subrange(i as int, e) =~= pre + rest);
                lemma_val_append(pre, rest);
                assert forall|k: int| 0 <= k < rest.len() implies is_digit(
                    #[trigger] rest[k],
                ) by {
                    assert(rest[k] == v@[j + 1 + k]);
                }
                lemma_val_nonneg(rest);
                lemma_pow10_pos(rest.len());
                assert(val_of(pre) * pow10(rest.len()) >= val_of(pre)) by (nonlinear_arith)
                    requires
                        val_of(pre) >= 0,
                        pow10(rest.len()) >= 1,
                ;
                assert(val_of(v@.subrange(i as int, e)) > u32::MAX);
            }
            return None;
        }
        acc = acc * 10 + d;
        j = j + 1;
        proof {
            let pre = v@.subrange(i as int, j as int);
            assert(pre.drop_last() =~= v@.subrange(i as int, j as int - 1));
            assert(pre.last() == v@[j as int - 1]);
        }
    }
    proof {
        if e < j {
            assert(is_digit(v@[e]));
        }
        if e > j {
            assert(is_digit(v@[j as int]));
        }
        assert(e == j);
    }
    Some((acc, j))
}

#[verifier::rlimit(100)]
#[verifier::spinoff_prover]
fn parse_article(v: &Vec<char>, i: usize) -> (r: Option<(Article, usize)>)
    ensures
        match (r, ps_article(v@, i as int)) {
            (Some((x, a)), Some((t, b))) => x@ == t && a as int == b && x@.added.wf(),
            (None, None) => true,
            _ => false,
        },
{
    let j0 = match parse_lit(v, i, "{\"id\":") {
        Some(j) => j,
        None => {
            return None;
        },
    };
    let (id, j1) = match parse_string(v, j0) {
        Some(x) => x,
        None => {
            return None;
        },
    };
    let (changed, j2) = match parse_lit(v, j1, ",\"changed\":") {
        Some(jc) => match parse_changed(v, jc) {
            Some((f, j)) => (f, j),
            None => {
                return None;
            },
        },
        None => (ChangeFlags { deleted: false, starred: false, archived: false }, j1),
    };
    let j3 = match parse_lit(v, j2, ",\"title\":") {
        Some(j) => j,
        None => {
            return None;
        },
    };
    let (title, j4) = match parse_string(v, j3) {
        Some(x) => x,
        None => {
            return None;
        },
    };
    let j5 = match parse_lit(v, j4, ",\"domain\":") {
        Some(j) => j,
        None => {
            return None;
        },
    };
    let (domain, j6) = match parse_string(v, j5) {
        Some(x) => x,
        None => {
            return None;
        },
    };
    let j7 = match parse_lit(v, j6, ",\"authors\":[") {
        Some(j) => j,
        None => {
            return None;
        },
    };
    let (authors, j8) = match parse_items(v, j7) {
        Some(x) => x,
        None => {
            return None;
        },
    };
    let j9 = match parse_lit(v, j8, ",\"format\":") {
        Some(j) => j,
        None => {
            return None;
        },
    };
    let (format, j10) = match parse_string(v, j9) {
        Some(x) => x,
        None => {
            return None;
        },
    };
    let j11 = match parse_lit(v, j10, ",\"language\":") {
        Some(j) => j,
        None => {
            return None;
        },
    };
    let (language, j12) = match parse_string(v, j11) {
        Some(x) => x,
        None => {
            return None;
        },
    };
    let j13 = match parse_lit(v, j12, ",\"reading_time\":") {
        Some(j) => j,
        None => {
            return None;
        },
    };
    proof {
        assert(j13 <= v.len());
    }
    let (rt, j14) = match parse_u32(v, j13) {
        Some(x) => x,
        None => {
            return None;
        },
    };
    let j15 = match parse_lit(v, j14, ",\"added\":") {
        Some(j) => j,
        None => {
            return None;
        },
    };
    let (added, j16) = match parse_ts(v, j15) {
        Some(x) => x,
        None => {
            return None;
        },
    };
    let j17 = match parse_lit(v, j16, ",\"starred\":") {
        Some(j) => j,
        None => {
            return None;
        },
    };
    let (starred, j18) = match parse_bool(v, j17) {
        Some(x) => x,
        None => {
            return None;
        },
    };
    let j19 = match parse_lit(v, j18, ",\"archived\":") {
        Some(j) => j,
        None => {
            return None;
        },
    };
    let (archived, j20) = match parse_bool(v, j19) {
        Some(x) => x,
        None => {
            return None;
        },
    };
    let j21 = match parse_char(v, j20, '}') {
        Some(j) => j,
        None => {
            return None;
        },
    };
    let a = Article {
        id,
        changed,
        title,
        domain,
        authors,
        format,
        language,
        reading_time: rt,
        added,
        starred,
        archived,
    };
    proof {
        let tail = ps_article_tail(
            v@,
            j8 as int,
            id@,
            changed,
            title@,
            domain@,
            authors.deep_view(),
        );
        assert(ps_article(v@, i as int) == tail);
        assert(tail is Some);
        assert(a@ =~= (tail->0).0);
    }
    Some((a, j21))
}

fn parse_entry(v: &Vec<char>, i: usize) -> (r: Option<(Article, usize)>)
    ensures
        match (r, ps_entry(v@, i as int)) {
            (Some((x, a)), Some((t, b))) => x@ == t && a as int == b && x@.added.wf(),
            (None, None) => true,
            _ => false,
        },
{
    let (key, j) = match parse_string(v, i) {
        Some(x) => x,
        None => {
            return None;
        },
    };
    let j2 = match parse_char(v, j, ':') {
        Some(j2) => j2,
        None => {
            return None;
        },
    };
    let (a, j3) = match parse_article(v, j2) {
        Some(x) => x,
        None => {
            return None;
        },
    };
    if str_eq(a.id.as_str(), key.as_str()) {
        Some((a, j3))
    } else {
        None
    }
}

fn parse_entries_rest(v: &Vec<char>, i: usize) -> (r: Option<(Vec<Article>, usize)>)
    ensures
        match (r, ps_entries_rest(v@, i as int)) {
            (Some((x, a)), Some((t, b))) => x.deep_view() == t && a as int == b && (forall|k: int|
                0 <= k < x.deep_view().len() ==> (#[trigger] x.deep_view()[k]).added.wf()),
            (None, None) => true,
            _ => false,
        },
    decreases v.len() - i,
{
    match parse_char(v, i, ',') {
        Some(j0) => match parse_entry(v, j0) {
            Some((a, j)) => {
                if j0 < j && j <= v.len() {
                    match parse_entries_rest(v, j) {
                        Some((mut rest, e)) => {
                            let ghost av = a@;
                            let ghost rdv = rest.deep_view();
                            rest.insert(0, a);
                            proof {
                                assert forall|k: int|
                                    0 <= k < rest.deep_view().len() implies #[trigger] rest.deep_view()[k]
                                    == (seq![av] + rdv)[k] by {
                                    if k == 0 {
                                        assert(rest@[0]@ == av);
                                    } else {
                                        assert(rest@[k]@ == rdv[k - 1]);
                                    }
                                }
                                assert(rest.deep_view() =~= seq![av] + rdv);
                                assert forall|k: int|
                                    0 <= k < rest.deep_view().len() implies (
                                #[trigger] rest.deep_view()[k]).added.wf() by {
                                    if k > 0 {
                                        assert(rest.deep_view()[k] == rdv[k - 1]);
                                    }
                                }
                            }
                            Some((rest, e))
                        },
                        None => None,
                    }
                } else {
                    None
                }
            },
            None => None,
        },
        None => Some((Vec::new(), i)),
    }
}

fn parse_entries(v: &Vec<char>, i: usize) -> (r: Option<(Vec<Article>, usize)>)
    ensures
        match (r, ps_entries(v@, i as int)) {
            (Some((x, a)), Some((t, b))) => x.deep_view() == t && a as int == b && (forall|k: int|
                0 <= k < x.deep_view().len() ==> (#[trigger] x.deep_view()[k]).added.wf()),
            (None, None) => true,
            _ => false,
        },
{
    if i < v.len() && v[i] == '}' {
        return Some((Vec::new(), i));
    }
    match parse_entry(v, i) {
        Some((a, j)) => match parse_entries_rest(v, j) {
            Some((mut rest, e)) => {
                let ghost av = a@;
                let ghost rdv = rest.deep_view();
                rest.insert(0, a);
                proof {
                    assert forall|k: int|
                        0 <= k < rest.deep_view().len() implies #[trigger] rest.deep_view()[k] == (
                    seq![av] + rdv)[k] by {
                        if k == 0 {
                            assert(rest@[0]@ == av);
                        } else {
                            assert(rest@[k]@ == rdv[k - 1]);
                        }
                    }
                    assert(rest.deep_view() =~= seq![av] + rdv);
                    assert forall|k: int|
                        0 <= k < rest.deep_view().len() implies (
                    #[trigger] rest.deep_view()[k]).added.wf() by {
                        if k > 0 {
                            assert(rest.deep_view()[k] == rdv[k - 1]);
                        }
                    }
                }
                Some((rest, e))
            },
            None => None,
        },
        None => None,
    }
}

/// A chain of neighbouring comparisons orders any two positions.
pub proof fn lemma_adjacent_chain(l: Seq<ArticleView>, i: int, j: int)
    requires
        adjacent_sorted(l),
        0 <= i < j < l.len(),
    ensures
        lex_lt(l[i].id, l[j].id),
    decreases j - i,
{
    if j > i + 1 {
        lemma_adjacent_chain(l, i, j - 1);
        crate::order::lemma_lex_lt_trans(l[i].id, l[j - 1].id, l[j].id);
    }
}

/// Neighbour-wise ascending keys are sorted keys.
pub proof fn lemma_adjacent_sorted(l: Seq<ArticleView>)
    requires
        adjacent_sorted(l),
    ensures
        crate::index::sorted_ids(l),
{
    assert forall|i: int, j: int| 0 <= i < j < l.len() implies lex_lt(
        #[trigger] l[i].id,
        #[trigger] l[j].id,
    ) by {
        lemma_adjacent_chain(l, i, j);
    }
}

/// Reads an index back from its persisted text: the inverse of
/// [`encode_index`] on exactly the texts that denote an index. Any other
/// text, the empty text included, is an [`IndexLoadError`], never a panic.
pub fn read_index(data: &str) -> (r: Result<ArticleIndex, IndexLoadError>)
    ensures
        match r {
            Ok(idx) => idx.wf() && dec_index(data@) == Some(idx@),
            Err(_) => dec_index(data@) is None,
        },
{
    let v = chars_of(data);
    let j = match parse_lit(&v, 0, "{\"articles\":{") {
        Some(j) => j,
        None => {
            return Err(IndexLoadError);
        },
    };
    let (arts, j2) = match parse_entries(&v, j) {
        Some(x) => x,
        None => {
            return Err(IndexLoadError);
        },
    };
    let j3 = match parse_lit(&v, j2, "}}") {
        Some(j) => j,
        None => {
            return Err(IndexLoadError);
        },
    };
    if j3 != v.len() {
        return Err(IndexLoadError);
    }
    proof {
        assert(dec_index(data@) == (if adjacent_sorted(arts.deep_view()) {
            Some(arts.deep_view())
        } else {
            Option::<Seq<ArticleView>>::None
        }));
    }
    let mut k: usize = 0;
    while k < arts.len() && k + 1 < arts.len()
        invariant
            0 <= k <= arts.len(),
            arts.len() == arts.deep_view().len(),
            dec_index(data@) == (if adjacent_sorted(arts.deep_view()) {
                Some(arts.deep_view())
            } else {
                Option::<Seq<ArticleView>>::None
            }),
            forall|m: int|
                0 <= m < arts.deep_view().len() ==> (#[trigger] arts.deep_view()[m]).added.wf(),
            forall|m: int|
                0 <= m < k ==> lex_lt(
                    (#[trigger] arts.deep_view()[m]).id,
                    arts.deep_view()[m + 1].id,
                ),
        decreases arts.len() - k,
    {
        let ordered = match str_cmp(arts[k].id.as_str(), arts[k + 1].id.as_str()) {
            StrOrd::Less => true,
            _ => false,
        };
        if !ordered {
            proof {
                assert(!lex_lt(arts.deep_view()[k as int].id, arts.deep_view()[k as int + 1].id));
                assert(!adjacent_sorted(arts.deep_view()));
            }
            return Err(IndexLoadError);
        }
        k = k + 1;
    }
    proof {
        assert(adjacent_sorted(arts.deep_view()));
        lemma_adjacent_sorted(arts.deep_view());
    }
    Ok(ArticleIndex { articles: arts })
}

// ---------------------------------------------------------------------------
// Round trip: the reader recovers exactly what the encoder wrote.
// ---------------------------------------------------------------------------
/// Splitting a region that holds a concatenation.
pub proof fn lemma_region_split(s: Seq<char>, i: int, x: Seq<char>, y: Seq<char>)
    requires
        0 <= i,
        i + x.len() + y.len() <= s.len(),
        s.subrange(i, i + x.len() + y.len()) == x + y,
    ensures
        s.subrange(i, i + x.len()) == x,
        s.subrange(i + x.len(), i + x.len() + y.len()) == y,
{
    let whole = s.subrange(i, i + x.len() + y.len());
    assert forall|k: int| 0 <= k < x.len() implies #[trigger] s.subrange(i, i + x.len())[k]
        == x[k] by {
        assert(whole[k] == (x + y)[k]);
    }
    assert(s.subrange(i, i + x.len()) =~= x);
    assert forall|k: int| 0 <= k < y.len() implies #[trigger] s.subrange(
        i + x.len(),
        i + x.len() + y.len(),
    )[k] == y[k] by {
        assert(whole[k + x.len()] == (x + y)[k + x.len()]);
    }
    assert(s.subrange(i + x.len(), i + x.len() + y.len()) =~= y);
}

/// Reading a string body back from its escaped form, up to the closing
/// quote that follows it.
pub proof fn lemma_rt_str_body(s: Seq<char>, i: int, x: Seq<char>)
    requires
        0 <= i,
        i + esc(x).len() + 1 <= s.len(),
        s.subrange(i, i + esc(x).len()) == esc(x),
        s[i + esc(x).len()] == '"',
    ensures
        ps_str_body(s, i) == Some((x, i + esc(x).len() + 1)),
    decreases x.len(),
{
    if x.len() == 0 {
        assert(esc(x).len() == 0);
        assert(x =~= Seq::<char>::empty());
    } else {
        let c = x[0];
        let tail = esc(x.skip(1));
        assert(esc(x) == esc_char(c) + tail);
        lemma_region_split(s, i, esc_char(c), tail);
        if c == '"' || c == '\\' {
            assert(s.subrange(i, i + 2)[0] == '\\');
            assert(s.subrange(i, i + 2)[1] == c);
            assert(s[i] == '\\');
            assert(s[i + 1] == c);
            assert(s.subrange(i + 2, i + 2 + tail.len()) == tail);
            lemma_rt_str_body(s, i + 2, x.skip(1));
            assert(seq![s[i + 1]] + x.skip(1) =~= x);
        } else {
            assert(s.subrange(i, i + 1)[0] == c);
            assert(s[i] == c);
            assert(s.subrange(i + 1, i + 1 + tail.len()) == tail);
            lemma_rt_str_body(s, i + 1, x.skip(1));
            assert(seq![s[i]] + x.skip(1) =~= x);
        }
    }
}

/// Reading a whole quoted string back.
pub proof fn lemma_rt_string(s: Seq<char>, i: int, x: Seq<char>)
    requires
        0 <= i,
        i + enc_str(x).len() <= s.len(),
        s.subrange(i, i + enc_str(x).len()) == enc_str(x),
    ensures
        ps_string(s, i) == Some((x, i + enc_str(x).len())),
{
    assert(s.subrange(i, i + 1 + (esc(x) + seq!['"']).len()) == seq!['"'] + (esc(x) + seq!['"']))
        by {
        assert(seq!['"'] + (esc(x) + seq!['"']) =~= enc_str(x));
    }
    lemma_region_split(s, i, seq!['"'], esc(x) + seq!['"']);
    assert(s.subrange(i, i + 1)[0] == '"');
    assert(s[i] == '"');
    lemma_region_split(s, i + 1, esc(x), seq!['"']);
    assert(s.subrange(i + 1 + esc(x).len(), i + 1 + esc(x).len() + 1)[0] == '"');
    assert(s[i + 1 + esc(x).len()] == '"');
    lemma_rt_str_body(s, i + 1, x);
}

/// A digit character carries its digit.
pub proof fn lemma_digit_char_val(d: int)
    requires
        0 <= d <= 9,
    ensures
        char_digit(digit_char(d)) == d,
        is_digit(digit_char(d)),
{
}

/// Decimal digit strings are digit strings, never empty, and without a
/// leading zero above zero.
pub proof fn lemma_dec_digits_form(n: int)
    requires
        n >= 0,
    ensures
        dec_digits(n).len() >= 1,
        all_digits(dec_digits(n)),
        n >= 1 ==> dec_digits(n)[0] != '0',
        val_of(dec_digits(n)) == n,
    decreases n,
{
    if n < 10 {
        lemma_digit_char_val(n);
        let ds = dec_digits(n);
        assert(ds.drop_last() =~= Seq::<char>::empty());
        assert(val_of(ds) == val_of(ds.drop_last()) * 10 + char_digit(ds.last()));
    } else {
        lemma_dec_digits_form(n / 10);
        lemma_digit_char_val(n % 10);
        let ds = dec_digits(n);
        assert(ds == dec_digits(n / 10).push(digit_char(n % 10)));
        assert(ds.drop_last() =~= dec_digits(n / 10));
        assert(ds.last() == digit_char(n % 10));
        assert forall|k: int| 0 <= k < ds.len() implies is_digit(#[trigger] ds[k]) by {
            if k < ds.len() - 1 {
                assert(ds[k] == dec_digits(n / 10)[k]);
            }
        }
        assert(ds[0] == dec_digits(n / 10)[0]);
    }
}

/// The digit run over a known digit region with a non-digit behind it.
pub proof fn lemma_digits_end_exact(s: Seq<char>, i: int, j: int)
    requires
        0 <= i <= j <= s.len(),
        forall|k: int| i <= k < j ==> is_digit(#[trigger] s[k]),
        j == s.len() || !is_digit(s[j]),
    ensures
        ps_digits_end(s, i) == j,
    decreases j - i,
{
    if i < j {
        lemma_digits_end_exact(s, i + 1, j);
    }
}

/// Reading a number back from its decimal form, with a non-digit after it.
pub proof fn lemma_rt_u32(s: Seq<char>, i: int, n: u32)
    requires
        0 <= i,
        i + dec_digits(n as int).len() < s.len(),
        s.subrange(i, i + dec_digits(n as int).len()) == dec_digits(n as int),
        !is_digit(s[i + dec_digits(n as int).len()]),
    ensures
        ps_u32(s, i) == Some((n, i + dec_digits(n as int).len())),
{
    let ds = dec_digits(n as int);
    lemma_dec_digits_form(n as int);
    assert forall|k: int| i <= k < i + ds.len() implies is_digit(#[trigger] s[k]) by {
        assert(s.subrange(i, i + ds.len())[k - i] == ds[k - i]);
    }
    lemma_digits_end_exact(s, i, i + ds.len());
    assert(s[i] == s.subrange(i, i + ds.len())[0]);
    assert(s[i] == ds[0]);
    if n == 0 {
        assert(ds.len() == 1);
    } else {
        assert(s[i] != '0');
    }
    assert(val_of(s.subrange(i, i + ds.len())) == n);
}

/// Reading two zero-padded digits back.
pub proof fn lemma_rt_2d(s: Seq<char>, i: int, n: int)
    requires
        0 <= n < 100,
        0 <= i,
        i + 2 <= s.len(),
        s.subrange(i, i + 2) == dec2(n),
    ensures
        ps_2d(s, i) == Some((n, i + 2)),
{
    lemma_digit_char_val(n / 10);
    lemma_digit_char_val(n % 10);
    assert(s[i] == s.subrange(i, i + 2)[0]);
    assert(s[i + 1] == s.subrange(i, i + 2)[1]);
    assert(s[i] == digit_char(n / 10));
    assert(s[i + 1] == digit_char(n % 10));
}

/// Reading a boolean back.
pub proof fn lemma_rt_bool(s: Seq<char>, i: int, b: bool)
    requires
        0 <= i,
        i + enc_bool(b).len() <= s.len(),
        s.subrange(i, i + enc_bool(b).len()) == enc_bool(b),
    ensures
        ps_bool(s, i) == Some((b, i + enc_bool(b).len())),
{
    reveal_strlit("true");
    reveal_strlit("false");
    if b {
    } else {
        assert(s[i] == s.subrange(i, i + 5)[0]);
        assert(s[i] == 'f');
        if ps_lit(s, i, "true"@) is Some {
            assert(s.subrange(i, i + 4)[0] == 't');
            assert(s.subrange(i, i + 4)[0] == s[i]);
        }
    }
}

/// Reading the offset back.
pub proof fn lemma_rt_off(s: Seq<char>, i: int, off: int)
    requires
        -1439 <= off <= 1439,
        0 <= i,
        i + 6 <= s.len(),
        s.subrange(i, i + 6) == enc_off(off),
    ensures
        ps_off(s, i) == Some((off, i + 6)),
{
    if off >= 0 {
        let r3 = dec2(off % 60);
        let r2 = seq![':'] + r3;
        let r1 = dec2(off / 60) + r2;
        let r0 = seq!['+'] + r1;
        assert(enc_off(off) =~= r0);
        lemma_region_split(s, i, seq!['+'], r1);
        lemma_region_split(s, i + 1, dec2(off / 60), r2);
        lemma_region_split(s, i + 3, seq![':'], r3);
        assert(s.subrange(i, i + 1)[0] == '+');
        assert(s[i] == '+');
        assert(s.subrange(i + 3, i + 4)[0] == ':');
        assert(s[i + 3] == ':');
        lemma_rt_2d(s, i + 1, off / 60);
        lemma_rt_2d(s, i + 4, off % 60);
    } else {
        let m = -off;
        let r3 = dec2(m % 60);
        let r2 = seq![':'] + r3;
        let r1 = dec2(m / 60) + r2;
        let r0 = seq!['-'] + r1;
        assert(enc_off(off) =~= r0);
        lemma_region_split(s, i, seq!['-'], r1);
        lemma_region_split(s, i + 1, dec2(m / 60), r2);
        lemma_region_split(s, i + 3, seq![':'], r3);
        assert(s.subrange(i, i + 1)[0] == '-');
        assert(s[i] == '-');
        assert(s.subrange(i + 3, i + 4)[0] == ':');
        assert(s[i + 3] == ':');
        lemma_rt_2d(s, i + 1, m / 60);
        lemma_rt_2d(s, i + 4, m % 60);
    }
}

/// Reading a timestamp back.
#[verifier::rlimit(100)]
pub proof fn lemma_rt_ts(s: Seq<char>, i: int, t: Timestamp)
    requires
        t.wf(),
        0 <= i,
        i + enc_ts(t).len() <= s.len(),
        s.subrange(i, i + enc_ts(t).len()) == enc_ts(t),
    ensures
        enc_ts(t).len() == 27,
        ps_ts(s, i) == Some((t, i + 27)),
{
    let r13 = seq!['"'];
    let r12 = enc_off(t.offset_minutes as int) + r13;
    let r11 = dec2(t.second as int) + r12;
    let r10 = seq![':'] + r11;
    let r9 = dec2(t.minute as int) + r10;
    let r8 = seq![':'] + r9;
    let r7 = dec2(t.hour as int) + r8;
    let r6 = seq!['T'] + r7;
    let r5 = dec2(t.day as int) + r6;
    let r4 = seq!['-'] + r5;
    let r3 = dec2(t.month as int) + r4;
    let r2 = seq!['-'] + r3;
    let r1 = dec4(t.year as int) + r2;
    let r0 = seq!['"'] + r1;
    assert(enc_ts(t) =~= r0);
    lemma_region_split(s, i, seq!['"'], r1);
    lemma_region_split(s, i + 1, dec4(t.year as int), r2);
    lemma_region_split(s, i + 1 + 4, seq!['-'], r3);
    lemma_region_split(s, i + 1 + 4 + 1, dec2(t.month as int), r4);
    lemma_region_split(s, i + 1 + 4 + 1 + 2, seq!['-'], r5);
    lemma_region_split(s, i + 1 + 4 + 1 + 2 + 1, dec2(t.day as int), r6);
    lemma_region_split(s, i + 1 + 4 + 1 + 2 + 1 + 2, seq!['T'], r7);
    lemma_region_split(s, i + 1 + 4 + 1 + 2 + 1 + 2 + 1, dec2(t.hour as int), r8);
    lemma_region_split(s, i + 1 + 4 + 1 + 2 + 1 + 2 + 1 + 2, seq![':'], r9);
    lemma_region_split(s, i + 1 + 4 + 1 + 2 + 1 + 2 + 1 + 2 + 1, dec2(t.minute as int), r10);
    lemma_region_split(s, i + 1 + 4 + 1 + 2 + 1 + 2 + 1 + 2 + 1 + 2, seq![':'], r11);
    lemma_region_split(s, i + 1 + 4 + 1 + 2 + 1 + 2 + 1 + 2 + 1 + 2 + 1, dec2(t.second as int), r12);
    lemma_region_split(s, i + 1 + 4 + 1 + 2 + 1 + 2 + 1 + 2 + 1 + 2 + 1 + 2, enc_off(t.offset_minutes as int), r13);
    assert(dec4(t.year as int) =~= dec2(t.year as int / 100) + dec2(t.year as int % 100));
    lemma_region_split(s, i + 1, dec2(t.year as int / 100), dec2(t.year as int % 100));
    assert(s.subrange(i, i + 1)[0] == '"');
    assert(s[i] == '"');
    lemma_rt_2d(s, i + 1, t.year as int / 100);
    lemma_rt_2d(s, i + 3, t.year as int % 100);
    assert(s.subrange(i + 5, i + 6)[0] == '-');
    assert(s[i + 5] == '-');
    lemma_rt_2d(s, i + 6, t.month as int);
    assert(s.subrange(i + 8, i + 9)[0] == '-');
    assert(s[i + 8] == '-');
    lemma_rt_2d(s, i + 9, t.day as int);
    assert(s.subrange(i + 11, i + 12)[0] == 'T');
    assert(s[i + 11] == 'T');
    lemma_rt_2d(s, i + 12, t.hour as int);
    assert(s.subrange(i + 14, i + 15)[0] == ':');
    assert(s[i + 14] == ':');
    lemma_rt_2d(s, i + 15, t.minute as int);
    assert(s.subrange(i + 17, i + 18)[0] == ':');
    assert(s[i + 17] == ':');
    lemma_rt_2d(s, i + 18, t.second as int);
    lemma_rt_off(s, i + 20, t.offset_minutes as int);
    assert(s.subrange(i + 26, i + 27)[0] == '"');
    assert(s[i + 26] == '"');
    assert(ps_ts(s, i) == Some((t, i + 27))) by {
        let got = (ps_ts(s, i)->0).0;
        assert(ps_ts(s, i) is Some);
        assert(got == t);
    }
}

/// Reading the pending-changes array back.
#[verifier::rlimit(100)]
pub proof fn lemma_rt_changed(s: Seq<char>, i: int, f: ChangeFlags)
    requires
        0 <= i,
        i + enc_changed(f).len() <= s.len(),
        s.subrange(i, i + enc_changed(f).len()) == enc_changed(f),
    ensures
        ps_changed(s, i) == Some((f, i + enc_changed(f).len())),
{
    reveal_strlit("[");
    reveal_strlit("]");
    reveal_strlit(",");
    reveal_strlit("\"deleted\"");
    reveal_strlit("\"starred\"");
    reveal_strlit("\"archived\"");
    reveal_strlit(",\"starred\"");
    reveal_strlit(",\"archived\"");
    let litd = "\"deleted\""@;
    let lits = "\"starred\""@;
    let lita = "\"archived\""@;
    let pa = (if f.deleted {
        litd
    } else {
        Seq::<char>::empty()
    });
    let pres = (if f.deleted {
        ","@
    } else {
        Seq::<char>::empty()
    });
    let pb = (if f.starred {
        pres + lits
    } else {
        Seq::<char>::empty()
    });
    let prea = (if f.deleted || f.starred {
        ","@
    } else {
        Seq::<char>::empty()
    });
    let pc = (if f.archived {
        prea + lita
    } else {
        Seq::<char>::empty()
    });
    let r3 = "]"@;
    let r2 = pc + r3;
    let r1 = pb + r2;
    let r0 = pa + r1;
    assert(enc_changed(f) =~= "["@ + r0);
    lemma_region_split(s, i, "["@, r0);
    assert(s.subrange(i, i + 1)[0] == '[');
    assert(s[i] == '[');
    let j0 = i + 1;
    lemma_region_split(s, j0, pa, r1);
    let j1 = j0 + pa.len();
    lemma_region_split(s, j1, pb, r2);
    let j2 = j1 + pb.len();
    lemma_region_split(s, j2, pc, r3);
    let j3 = j2 + pc.len();
    assert(s.subrange(j3, j3 + 1)[0] == ']');
    assert(s[j3] == ']');
    // first try: "deleted"
    if f.deleted {
        assert(s.subrange(j0, j0 + litd.len()) == litd);
        assert(ps_lit(s, j0, litd) == Some(j1));
    } else {
        if ps_lit(s, j0, litd) is Some {
            assert(s.subrange(j0, j0 + litd.len())[1] == litd[1]);
            assert(s[j0 + 1] == 'd');
            if f.starred {
                assert(s.subrange(j1, j1 + pb.len())[1] == pb[1]);
                assert(s[j0 + 1] == 's');
            } else if f.archived {
                assert(s.subrange(j2, j2 + pc.len())[1] == pc[1]);
                assert(s[j0 + 1] == 'a');
            } else {
                assert(s[j0 + 1] == ']');
            }
            assert(false);
        }
    }
    // second try: "starred", with a comma when something came before
    let sel_s = (if f.deleted {
        ",\"starred\""@
    } else {
        lits
    });
    assert(",\"starred\""@ =~= ","@ + lits);
    if f.starred {
        assert(pb =~= sel_s);
        assert(s.subrange(j1, j1 + sel_s.len()) == sel_s);
        assert(ps_lit(s, j1, sel_s) == Some(j2));
    } else {
        if ps_lit(s, j1, sel_s) is Some {
            assert(s.subrange(j1, j1 + sel_s.len()) == sel_s);
            if f.archived {
                assert(s.subrange(j2, j2 + pc.len()) == pc);
                if f.deleted {
                    assert(pc[2] == 'a');
                    assert(s[j1 + 2] == 'a');
                    assert(sel_s[2] == 's');
                    assert(s.subrange(j1, j1 + sel_s.len())[2] == sel_s[2]);
                } else {
                    assert(pc[1] == 'a');
                    assert(s[j1 + 1] == 'a');
                    assert(sel_s[1] == 's');
                    assert(s.subrange(j1, j1 + sel_s.len())[1] == sel_s[1]);
                }
            } else {
                assert(s[j1] == ']');
                assert(s.subrange(j1, j1 + sel_s.len())[0] == sel_s[0]);
                assert(sel_s[0] == ',' || sel_s[0] == '"');
            }
            assert(false);
        }
    }
    // third try: "archived"
    let sel_a = (if f.deleted || f.starred {
        ",\"archived\""@
    } else {
        lita
    });
    assert(",\"archived\""@ =~= ","@ + lita);
    if f.archived {
        assert(pc =~= sel_a);
        assert(s.subrange(j2, j2 + sel_a.len()) == sel_a);
        assert(ps_lit(s, j2, sel_a) == Some(j3));
    } else {
        if ps_lit(s, j2, sel_a) is Some {
            assert(s.subrange(j2, j2 + sel_a.len()) == sel_a);
            assert(s[j2] == ']');
            assert(s.subrange(j2, j2 + sel_a.len())[0] == sel_a[0]);
            assert(sel_a[0] == ',' || sel_a[0] == '"');
            assert(false);
        }
    }
    assert(ps_changed(s, i) == Some((f, i + enc_changed(f).len()))) by {
        assert(ps_char(s, j3, ']') == Some(j3 + 1));
        let got = (ps_changed(s, i)->0).0;
        assert(ps_changed(s, i) is Some);
        assert(got == f);
        assert(j3 + 1 == i + enc_changed(f).len());
    }
}

/// A comma-led rendering of the strings after the first of a list.
pub open spec fn enc_items_rest(l: Seq<Seq<char>>) -> Seq<char>
    decreases l.len(),
{
    if l.len() == 0 {
        Seq::empty()
    } else {
        ","@ + enc_str(l[0]) + enc_items_rest(l.skip(1))
    }
}

/// Appending one more string extends the comma-led rendering at its end.
pub proof fn lemma_items_rest_push(m: Seq<Seq<char>>, x: Seq<char>)
    ensures
        enc_items_rest(m.push(x)) == enc_items_rest(m) + (","@ + enc_str(x)),
    decreases m.len(),
{
    if m.len() == 0 {
        assert(m.push(x)[0] == x);
        assert(m.push(x).skip(1) =~= Seq::<Seq<char>>::empty());
        assert(enc_items_rest(Seq::<Seq<char>>::empty()) == Seq::<char>::empty());
        assert(enc_items_rest(m) == Seq::<char>::empty());
        assert(enc_items_rest(m.push(x)) == ","@ + enc_str(x) + enc_items_rest(
            m.push(x).skip(1),
        ));
        assert(enc_items_rest(m.push(x)) =~= enc_items_rest(m) + (","@ + enc_str(x)));
    } else {
        assert(m.push(x)[0] == m[0]);
        assert(m.push(x).skip(1) =~= m.skip(1).push(x));
        lemma_items_rest_push(m.skip(1), x);
        assert(enc_items_rest(m.push(x)) == ","@ + enc_str(m[0]) + enc_items_rest(
            m.skip(1).push(x),
        ));
        assert(enc_items_rest(m.skip(1).push(x)) == enc_items_rest(m.skip(1)) + (","@ + enc_str(
            x,
        )));
        assert(enc_items_rest(m) == ","@ + enc_str(m[0]) + enc_items_rest(m.skip(1)));
        assert(","@ + enc_str(m[0]) + (enc_items_rest(m.skip(1)) + (","@ + enc_str(x))) =~= (","@
            + enc_str(m[0]) + enc_items_rest(m.skip(1))) + (","@ + enc_str(x)));
        assert(enc_items_rest(m.push(x)) =~= enc_items_rest(m) + (","@ + enc_str(x)));
    }
}

/// The back-recursive list rendering, opened at the front.
pub proof fn lemma_enc_list_front(l: Seq<Seq<char>>)
    requires
        l.len() >= 1,
    ensures
        enc_str_list(l) == enc_str(l[0]) + enc_items_rest(l.skip(1)),
    decreases l.len(),
{
    if l.len() == 1 {
        assert(l.skip(1) =~= Seq::<Seq<char>>::empty());
        assert(enc_str(l[0]) + enc_items_rest(l.skip(1)) =~= enc_str(l[0]));
    } else {
        lemma_enc_list_front(l.drop_last());
        assert(l.drop_last()[0] == l[0]);
        lemma_items_rest_push(l.drop_last().skip(1), l.last());
        assert(l.drop_last().skip(1).push(l.last()) =~= l.skip(1));
        assert(enc_str_list(l) == enc_str_list(l.drop_last()) + ","@ + enc_str(l.last()));
        assert(enc_str(l[0]) + enc_items_rest(l.drop_last().skip(1)) + ","@ + enc_str(l.last())
            =~= enc_str(l[0]) + (enc_items_rest(l.drop_last().skip(1)) + (","@ + enc_str(
            l.last(),
        ))));
        assert(enc_str_list(l) =~= enc_str(l[0]) + enc_items_rest(l.skip(1)));
    }
}

/// Reading the comma-led string items back, up to the closing bracket.
pub proof fn lemma_rt_items_rest(s: Seq<char>, i: int, m: Seq<Seq<char>>)
    requires
        0 <= i,
        i + enc_items_rest(m).len() + 1 <= s.len(),
        s.subrange(i, i + enc_items_rest(m).len()) == enc_items_rest(m),
        s[i + enc_items_rest(m).len()] == ']',
    ensures
        ps_items_rest(s, i) == Some((m, i + enc_items_rest(m).len())),
    decreases m.len(),
{
    reveal_strlit(",");
    if m.len() == 0 {
        assert(s[i] == ']');
    } else {
        let rest = enc_str(m[0]) + enc_items_rest(m.skip(1));
        assert(enc_items_rest(m) == ","@ + rest);
        lemma_region_split(s, i, ","@, rest);
        assert(s.subrange(i, i + 1)[0] == ',');
        assert(s[i] == ',');
        lemma_region_split(s, i + 1, enc_str(m[0]), enc_items_rest(m.skip(1)));
        lemma_rt_string(s, i + 1, m[0]);
        lemma_rt_items_rest(s, i + 1 + enc_str(m[0]).len(), m.skip(1));
        assert(seq![m[0]] + m.skip(1) =~= m);
    }
}

/// Reading a whole bracketed string list back.
pub proof fn lemma_rt_items(s: Seq<char>, i: int, l: Seq<Seq<char>>)
    requires
        0 <= i,
        i + enc_str_list(l).len() + 1 <= s.len(),
        s.subrange(i, i + enc_str_list(l).len()) == enc_str_list(l),
        s[i + enc_str_list(l).len()] == ']',
    ensures
        ps_items(s, i) == Some((l, i + enc_str_list(l).len() + 1)),
{
    if l.len() == 0 {
        assert(s[i] == ']');
    } else {
        lemma_enc_list_front(l);
        lemma_region_split(s, i, enc_str(l[0]), enc_items_rest(l.skip(1)));
        lemma_rt_string(s, i, l[0]);
        assert(s.subrange(i, i + enc_str(l[0]).len())[0] == enc_str(l[0])[0]);
        assert(s[i] == '"');
        lemma_rt_items_rest(s, i + enc_str(l[0]).len(), l.skip(1));
        assert(seq![l[0]] + l.skip(1) =~= l);
    }
}

/// Reading the trailing record fields back.
#[verifier::rlimit(100)]
pub proof fn lemma_rt_article_tail(s: Seq<char>, i: int, a: ArticleView)
    requires
        a.added.wf(),
        0 <= i,
        i + enc_article_tail(a).len() <= s.len(),
        s.subrange(i, i + enc_article_tail(a).len()) == enc_article_tail(a),
    ensures
        ps_article_tail(s, i, a.id, a.changed, a.title, a.domain, a.authors) == Some(
            (a, i + enc_article_tail(a).len()),
        ),
{
    reveal_strlit(",\"format\":");
    reveal_strlit(",\"language\":");
    reveal_strlit(",\"reading_time\":");
    reveal_strlit(",\"added\":");
    reveal_strlit(",\"starred\":");
    reveal_strlit(",\"archived\":");
    reveal_strlit("}");
    let rt12 = "}"@;
    let rt11 = enc_bool(a.archived) + rt12;
    let rt10 = ",\"archived\":"@ + rt11;
    let rt9 = enc_bool(a.starred) + rt10;
    let rt8 = ",\"starred\":"@ + rt9;
    let rt7 = enc_ts(a.added) + rt8;
    let rt6 = ",\"added\":"@ + rt7;
    let rt5 = dec_digits(a.reading_time as int) + rt6;
    let rt4 = ",\"reading_time\":"@ + rt5;
    let rt3 = enc_str(a.language) + rt4;
    let rt2 = ",\"language\":"@ + rt3;
    let rt1 = enc_str(a.format) + rt2;
    let rt0 = ",\"format\":"@ + rt1;
    assert(enc_article_tail(a) =~= rt0);
    lemma_region_split(s, i, ",\"format\":"@, rt1);
    lemma_region_split(s, i + ",\"format\":"@.len(), enc_str(a.format), rt2);
    lemma_region_split(s, i + ",\"format\":"@.len() + enc_str(a.format).len(), ",\"language\":"@, rt3);
    lemma_region_split(s, i + ",\"format\":"@.len() + enc_str(a.format).len() + ",\"language\":"@.len(), enc_str(a.language), rt4);
    lemma_region_split(s, i + ",\"format\":"@.len() + enc_str(a.format).len() + ",\"language\":"@.len() + enc_str(a.language).len(), ",\"reading_time\":"@, rt5);
    lemma_region_split(s, i + ",\"format\":"@.len() + enc_str(a.format).len() + ",\"language\":"@.len() + enc_str(a.language).len() + ",\"reading_time\":"@.len(), dec_digits(a.reading_time as int), rt6);
    lemma_region_split(s, i + ",\"format\":"@.len() + enc_str(a.format).len() + ",\"language\":"@.len() + enc_str(a.language).len() + ",\"reading_time\":"@.len() + dec_digits(a.reading_time as int).len(), ",\"added\":"@, rt7);
    lemma_region_split(s, i + ",\"format\":"@.len() + enc_str(a.format).len() + ",\"language\":"@.len() + enc_str(a.language).len() + ",\"reading_time\":"@.len() + dec_digits(a.reading_time as int).len() + ",\"added\":"@.len(), enc_ts(a.added), rt8);
    lemma_region_split(s, i + ",\"format\":"@.len() + enc_str(a.format).len() + ",\"language\":"@.len() + enc_str(a.language).len() + ",\"reading_time\":"@.len() + dec_digits(a.reading_time as int).len() + ",\"added\":"@.len() + enc_ts(a.added).len(), ",\"starred\":"@, rt9);
    lemma_region_split(s, i + ",\"format\":"@.len() + enc_str(a.format).len() + ",\"language\":"@.len() + enc_str(a.language).len() + ",\"reading_time\":"@.len() + dec_digits(a.reading_time as int).len() + ",\"added\":"@.len() + enc_ts(a.added).len() + ",\"starred\":"@.len(), enc_bool(a.starred), rt10);
    lemma_region_split(s, i + ",\"format\":"@.len() + enc_str(a.format).len() + ",\"language\":"@.len() + enc_str(a.language).len() + ",\"reading_time\":"@.len() + dec_digits(a.reading_time as int).len() + ",\"added\":"@.len() + enc_ts(a.added).len() + ",\"starred\":"@.len() + enc_bool(a.starred).len(), ",\"archived\":"@, rt11);
    lemma_region_split(s, i + ",\"format\":"@.len() + enc_str(a.format).len() + ",\"language\":"@.len() + enc_str(a.language).len() + ",\"reading_time\":"@.len() + dec_digits(a.reading_time as int).len() + ",\"added\":"@.len() + enc_ts(a.added).len() + ",\"starred\":"@.len() + enc_bool(a.starred).len() + ",\"archived\":"@.len(), enc_bool(a.archived), rt12);
    lemma_rt_string(s, i + ",\"format\":"@.len(), a.format);
    lemma_rt_string(s, i + ",\"format\":"@.len() + enc_str(a.format).len() + ",\"language\":"@.len(), a.language);
    lemma_dec_digits_form(a.reading_time as int);
    assert(s.subrange(i + ",\"format\":"@.len() + enc_str(a.format).len() + ",\"language\":"@.len() + enc_str(a.language).len() + ",\"reading_time\":"@.len() + dec_digits(a.reading_time as int).len(), i + ",\"format\":"@.len() + enc_str(a.format).len() + ",\"language\":"@.len() + enc_str(a.language).len() + ",\"reading_time\":"@.len() + dec_digits(a.reading_time as int).len() + ",\"added\":"@.len())[0] == ',');
    assert(s[i + ",\"format\":"@.len() + enc_str(a.format).len() + ",\"language\":"@.len() + enc_str(a.language).len() + ",\"reading_time\":"@.len() + dec_digits(a.reading_time as int).len()] == ',');
    assert(!is_digit(s[i + ",\"format\":"@.len() + enc_str(a.format).len() + ",\"language\":"@.len() + enc_str(a.language).len() + ",\"reading_time\":"@.len() + dec_digits(a.reading_time as int).len()]));
    lemma_rt_u32(s, i + ",\"format\":"@.len() + enc_str(a.format).len() + ",\"language\":"@.len() + enc_str(a.language).len() + ",\"reading_time\":"@.len(), a.reading_time);
    lemma_rt_ts(s, i + ",\"format\":"@.len() + enc_str(a.format).len() + ",\"language\":"@.len() + enc_str(a.language).len() + ",\"reading_time\":"@.len() + dec_digits(a.reading_time as int).len() + ",\"added\":"@.len(), a.added);
    lemma_rt_bool(s, i + ",\"format\":"@.len() + enc_str(a.format).len() + ",\"language\":"@.len() + enc_str(a.language).len() + ",\"reading_time\":"@.len() + dec_digits(a.reading_time as int).len() + ",\"added\":"@.len() + enc_ts(a.added).len() + ",\"starred\":"@.len(), a.starred);
    lemma_rt_bool(s, i + ",\"format\":"@.len() + enc_str(a.format).len() + ",\"language\":"@.len() + enc_str(a.language).len() + ",\"reading_time\":"@.len() + dec_digits(a.reading_time as int).len() + ",\"added\":"@.len() + enc_ts(a.added).len() + ",\"starred\":"@.len() + enc_bool(a.starred).len() + ",\"archived\":"@.len(), a.archived);
    assert(s.subrange(i + ",\"format\":"@.len() + enc_str(a.format).len() + ",\"language\":"@.len() + enc_str(a.language).len() + ",\"reading_time\":"@.len() + dec_digits(a.reading_time as int).len() + ",\"added\":"@.len() + enc_ts(a.added).len() + ",\"starred\":"@.len() + enc_bool(a.starred).len() + ",\"archived\":"@.len() + enc_bool(a.archived).len(), i + ",\"format\":"@.len() + enc_str(a.format).len() + ",\"language\":"@.len() + enc_str(a.language).len() + ",\"reading_time\":"@.len() + dec_digits(a.reading_time as int).len() + ",\"added\":"@.len() + enc_ts(a.added).len() + ",\"starred\":"@.len() + enc_bool(a.starred).len() + ",\"archived\":"@.len() + enc_bool(a.archived).len() + "}"@.len())[0] == '}');
    assert(s[i + ",\"format\":"@.len() + enc_str(a.format).len() + ",\"language\":"@.len() + enc_str(a.language).len() + ",\"reading_time\":"@.len() + dec_digits(a.reading_time as int).len() + ",\"added\":"@.len() + enc_ts(a.added).len() + ",\"starred\":"@.len() + enc_bool(a.starred).len() + ",\"archived\":"@.len() + enc_bool(a.archived).len()] == '}');
    let sp = ps_article_tail(s, i, a.id, a.changed, a.title, a.domain, a.authors);
    assert(sp is Some);
    assert((sp->0).0 =~= a);
    assert((sp->0).1 == i + enc_article_tail(a).len());
}

/// Reading a whole article record back.
#[verifier::rlimit(100)]
pub proof fn lemma_rt_article(s: Seq<char>, i: int, a: ArticleView)
    requires
        a.added.wf(),
        0 <= i,
        i + enc_article(a).len() <= s.len(),
        s.subrange(i, i + enc_article(a).len()) == enc_article(a),
    ensures
        ps_article(s, i) == Some((a, i + enc_article(a).len())),
{
    reveal(enc_article);
    reveal_strlit("{\"id\":");
    reveal_strlit(",\"changed\":");
    reveal_strlit(",\"title\":");
    reveal_strlit(",\"domain\":");
    reveal_strlit(",\"authors\":[");
    reveal_strlit("]");
    lemma_region_split(s, i, enc_article_head(a), enc_article_tail(a));
    let chpart = (if a.changed.is_empty() {
        Seq::<char>::empty()
    } else {
        ",\"changed\":"@ + enc_changed(a.changed)
    });
    let rh9 = "]"@;
    let rh8 = enc_str_list(a.authors) + rh9;
    let rh7 = ",\"authors\":["@ + rh8;
    let rh6 = enc_str(a.domain) + rh7;
    let rh5 = ",\"domain\":"@ + rh6;
    let rh4 = enc_str(a.title) + rh5;
    let rh3 = ",\"title\":"@ + rh4;
    let rh2 = chpart + rh3;
    let rh1 = enc_str(a.id) + rh2;
    let rh0 = "{\"id\":"@ + rh1;
    assert(enc_article_head(a) =~= rh0);
    lemma_region_split(s, i, "{\"id\":"@, rh1);
    lemma_region_split(s, i + "{\"id\":"@.len(), enc_str(a.id), rh2);
    lemma_region_split(s, i + "{\"id\":"@.len() + enc_str(a.id).len(), chpart, rh3);
    lemma_region_split(s, i + "{\"id\":"@.len() + enc_str(a.id).len() + chpart.len(), ",\"title\":"@, rh4);
    lemma_region_split(s, i + "{\"id\":"@.len() + enc_str(a.id).len() + chpart.len() + ",\"title\":"@.len(), enc_str(a.title), rh5);
    lemma_region_split(s, i + "{\"id\":"@.len() + enc_str(a.id).len() + chpart.len() + ",\"title\":"@.len() + enc_str(a.title).len(), ",\"domain\":"@, rh6);
    lemma_region_split(s, i + "{\"id\":"@.len() + enc_str(a.id).len() + chpart.len() + ",\"title\":"@.len() + enc_str(a.title).len() + ",\"domain\":"@.len(), enc_str(a.domain), rh7);
    lemma_region_split(s, i + "{\"id\":"@.len() + enc_str(a.id).len() + chpart.len() + ",\"title\":"@.len() + enc_str(a.title).len() + ",\"domain\":"@.len() + enc_str(a.domain).len(), ",\"authors\":["@, rh8);
    lemma_region_split(s, i + "{\"id\":"@.len() + enc_str(a.id).len() + chpart.len() + ",\"title\":"@.len() + enc_str(a.title).len() + ",\"domain\":"@.len() + enc_str(a.domain).len() + ",\"authors\":["@.len(), enc_str_list(a.authors), rh9);
    lemma_rt_string(s, i + "{\"id\":"@.len(), a.id);
    let jc = i + "{\"id\":"@.len() + enc_str(a.id).len();
    if a.changed.is_empty() {
        if ps_lit(s, jc, ",\"changed\":"@) is Some {
            assert(s.subrange(jc, jc + 11)[2] == 'c');
            assert(s.subrange(jc, jc + ",\"title\":"@.len())[2] == 't');
            assert(false);
        }
        assert(a.changed == (ChangeFlags { deleted: false, starred: false, archived: false }));
    } else {
        lemma_region_split(s, jc, ",\"changed\":"@, enc_changed(a.changed));
        lemma_rt_changed(s, jc + 11, a.changed);
    }
    lemma_rt_string(s, i + "{\"id\":"@.len() + enc_str(a.id).len() + chpart.len() + ",\"title\":"@.len(), a.title);
    lemma_rt_string(s, i + "{\"id\":"@.len() + enc_str(a.id).len() + chpart.len() + ",\"title\":"@.len() + enc_str(a.title).len() + ",\"domain\":"@.len(), a.domain);
    assert(s.subrange(i + "{\"id\":"@.len() + enc_str(a.id).len() + chpart.len() + ",\"title\":"@.len() + enc_str(a.title).len() + ",\"domain\":"@.len() + enc_str(a.domain).len() + ",\"authors\":["@.len(), i + "{\"id\":"@.len() + enc_str(a.id).len() + chpart.len() + ",\"title\":"@.len() + enc_str(a.title).len() + ",\"domain\":"@.len() + enc_str(a.domain).len() + ",\"authors\":["@.len() + enc_str_list(a.authors).len() + 1) == enc_str_list(a.authors) + "]"@) by {
        lemma_region_split(s, i + "{\"id\":"@.len() + enc_str(a.id).len() + chpart.len() + ",\"title\":"@.len() + enc_str(a.title).len() + ",\"domain\":"@.len() + enc_str(a.domain).len() + ",\"authors\":["@.len(), enc_str_list(a.authors), "]"@);
        assert forall|k: int| 0 <= k < enc_str_list(a.authors).len() + 1 implies #[trigger] s.subrange(
            i + "{\"id\":"@.len() + enc_str(a.id).len() + chpart.len() + ",\"title\":"@.len() + enc_str(a.title).len() + ",\"domain\":"@.len() + enc_str(a.domain).len() + ",\"authors\":["@.len(),
            i + "{\"id\":"@.len() + enc_str(a.id).len() + chpart.len() + ",\"title\":"@.len() + enc_str(a.title).len() + ",\"domain\":"@.len() + enc_str(a.domain).len() + ",\"authors\":["@.len() + enc_str_list(a.authors).len() + 1,
        )[k] == (enc_str_list(a.authors) + "]"@)[k] by {
            if k < enc_str_list(a.authors).len() {
                assert(s.subrange(i + "{\"id\":"@.len() + enc_str(a.id).len() + chpart.len() + ",\"title\":"@.len() + enc_str(a.title).len() + ",\"domain\":"@.len() + enc_str(a.domain).len() + ",\"authors\":["@.len(), i + "{\"id\":"@.len() + enc_str(a.id).len() + chpart.len() + ",\"title\":"@.len() + enc_str(a.title).len() + ",\"domain\":"@.len() + enc_str(a.domain).len() + ",\"authors\":["@.len() + enc_str_list(a.authors).len())[k] == enc_str_list(a.authors)[k]);
            } else {
                assert(s.subrange(i + "{\"id\":"@.len() + enc_str(a.id).len() + chpart.len() + ",\"title\":"@.len() + enc_str(a.title).len() + ",\"domain\":"@.len() + enc_str(a.domain).len() + ",\"authors\":["@.len() + enc_str_list(a.authors).len(), i + "{\"id\":"@.len() + enc_str(a.id).len() + chpart.len() + ",\"title\":"@.len() + enc_str(a.title).len() + ",\"domain\":"@.len() + enc_str(a.domain).len() + ",\"authors\":["@.len() + enc_str_list(a.authors).len() + 1)[0] == ']');
            }
        }
    }
    assert(s.subrange(i + "{\"id\":"@.len() + enc_str(a.id).len() + chpart.len() + ",\"title\":"@.len() + enc_str(a.title).len() + ",\"domain\":"@.len() + enc_str(a.domain).len() + ",\"authors\":["@.len() + enc_str_list(a.authors).len(), i + "{\"id\":"@.len() + enc_str(a.id).len() + chpart.len() + ",\"title\":"@.len() + enc_str(a.title).len() + ",\"domain\":"@.len() + enc_str(a.domain).len() + ",\"authors\":["@.len() + enc_str_list(a.authors).len() + 1)[0] == ']');
    assert(s[i + "{\"id\":"@.len() + enc_str(a.id).len() + chpart.len() + ",\"title\":"@.len() + enc_str(a.title).len() + ",\"domain\":"@.len() + enc_str(a.domain).len() + ",\"authors\":["@.len() + enc_str_list(a.authors).len()] == ']');
    lemma_rt_items(s, i + "{\"id\":"@.len() + enc_str(a.id).len() + chpart.len() + ",\"title\":"@.len() + enc_str(a.title).len() + ",\"domain\":"@.len() + enc_str(a.domain).len() + ",\"authors\":["@.len(), a.authors);
    lemma_rt_article_tail(s, i + "{\"id\":"@.len() + enc_str(a.id).len() + chpart.len() + ",\"title\":"@.len() + enc_str(a.title).len() + ",\"domain\":"@.len() + enc_str(a.domain).len() + ",\"authors\":["@.len() + enc_str_list(a.authors).len() + "]"@.len(), a);
    let sp = ps_article(s, i);
    assert(sp is Some);
    assert((sp->0).0 =~= a);
}

/// A comma-led rendering of the entries after the first.
pub open spec fn enc_entries_rest(l: Seq<ArticleView>) -> Seq<char>
    decreases l.len(),
{
    if l.len() == 0 {
        Seq::empty()
    } else {
        ","@ + enc_entry(l[0]) + enc_entries_rest(l.skip(1))
    }
}

/// Appending one more entry extends the comma-led rendering at its end.
pub proof fn lemma_entries_rest_push(m: Seq<ArticleView>, x: ArticleView)
    ensures
        enc_entries_rest(m.push(x)) == enc_entries_rest(m) + (","@ + enc_entry(x)),
    decreases m.len(),
{
    if m.len() == 0 {
        assert(m.push(x)[0] == x);
        assert(m.push(x).skip(1) =~= Seq::<ArticleView>::empty());
        assert(enc_entries_rest(Seq::<ArticleView>::empty()) == Seq::<char>::empty());
        assert(enc_entries_rest(m) == Seq::<char>::empty());
        assert(enc_entries_rest(m.push(x)) == ","@ + enc_entry(x) + enc_entries_rest(
            m.push(x).skip(1),
        ));
        assert(enc_entries_rest(m.push(x)) =~= enc_entries_rest(m) + (","@ + enc_entry(x)));
    } else {
        assert(m.push(x)[0] == m[0]);
        assert(m.push(x).skip(1) =~= m.skip(1).push(x));
        lemma_entries_rest_push(m.skip(1), x);
        assert(enc_entries_rest(m.push(x)) == ","@ + enc_entry(m[0]) + enc_entries_rest(
            m.skip(1).push(x),
        ));
        assert(enc_entries_rest(m) == ","@ + enc_entry(m[0]) + enc_entries_rest(m.skip(1)));
        assert(","@ + enc_entry(m[0]) + (enc_entries_rest(m.skip(1)) + (","@ + enc_entry(x)))
            =~= (","@ + enc_entry(m[0]) + enc_entries_rest(m.skip(1))) + (","@ + enc_entry(x)));
        assert(enc_entries_rest(m.push(x)) =~= enc_entries_rest(m) + (","@ + enc_entry(x)));
    }
}

/// The back-recursive entries rendering, opened at the front.
#[verifier::rlimit(100)]
pub proof fn lemma_enc_entries_front(l: Seq<ArticleView>)
    requires
        l.len() >= 1,
    ensures
        enc_entries(l) == enc_entry(l[0]) + enc_entries_rest(l.skip(1)),
    decreases l.len(),
{
    if l.len() == 1 {
        assert(l.skip(1) =~= Seq::<ArticleView>::empty());
        assert(enc_entries_rest(Seq::<ArticleView>::empty()) == Seq::<char>::empty());
        assert(enc_entry(l[0]) + enc_entries_rest(l.skip(1)) =~= enc_entry(l[0]));
    } else {
        lemma_enc_entries_front(l.drop_last());
        assert(l.drop_last()[0] == l[0]);
        lemma_entries_rest_push(l.drop_last().skip(1), l.last());
        assert(l.drop_last().skip(1).push(l.last()) =~= l.skip(1));
        assert(enc_entries(l) == enc_entries(l.drop_last()) + ","@ + enc_entry(l.last()));
        assert(enc_entry(l[0]) + enc_entries_rest(l.drop_last().skip(1)) + ","@ + enc_entry(
            l.last(),
        ) =~= enc_entry(l[0]) + (enc_entries_rest(l.drop_last().skip(1)) + (","@ + enc_entry(
            l.last(),
        ))));
        assert(enc_entries(l) =~= enc_entry(l[0]) + enc_entries_rest(l.skip(1)));
    }
}

/// Reading one entry back.
pub proof fn lemma_rt_entry(s: Seq<char>, i: int, a: ArticleView)
    requires
        a.added.wf(),
        0 <= i,
        i + enc_entry(a).len() <= s.len(),
        s.subrange(i, i + enc_entry(a).len()) == enc_entry(a),
    ensures
        ps_entry(s, i) == Some((a, i + enc_entry(a).len())),
        enc_entry(a).len() >= 3,
{
    reveal_strlit(":");
    assert(enc_entry(a) =~= enc_str(a.id) + (":"@ + enc_article(a)));
    lemma_region_split(s, i, enc_str(a.id), ":"@ + enc_article(a));
    let j = i + enc_str(a.id).len();
    lemma_region_split(s, j, ":"@, enc_article(a));
    assert(s.subrange(j, j + 1)[0] == ':');
    assert(s[j] == ':');
    lemma_rt_string(s, i, a.id);
    lemma_rt_article(s, j + 1, a);
}

/// Reading the comma-led entries back, up to the closing brace.
#[verifier::rlimit(100)]
pub proof fn lemma_rt_entries_rest(s: Seq<char>, i: int, m: Seq<ArticleView>)
    requires
        forall|k: int| 0 <= k < m.len() ==> (#[trigger] m[k]).added.wf(),
        0 <= i,
        i + enc_entries_rest(m).len() + 1 <= s.len(),
        s.subrange(i, i + enc_entries_rest(m).len()) == enc_entries_rest(m),
        s[i + enc_entries_rest(m).len()] == '}',
    ensures
        ps_entries_rest(s, i) == Some((m, i + enc_entries_rest(m).len())),
    decreases m.len(),
{
    reveal_strlit(",");
    if m.len() == 0 {
        assert(s[i] == '}');
    } else {
        let rest = enc_entry(m[0]) + enc_entries_rest(m.skip(1));
        assert(enc_entries_rest(m) == ","@ + rest);
        lemma_region_split(s, i, ","@, rest);
        assert(s.subrange(i, i + 1)[0] == ',');
        assert(s[i] == ',');
        lemma_region_split(s, i + 1, enc_entry(m[0]), enc_entries_rest(m.skip(1)));
        lemma_rt_entry(s, i + 1, m[0]);
        assert forall|k: int| 0 <= k < m.skip(1).len() implies (
        #[trigger] m.skip(1)[k]).added.wf() by {
            assert(m.skip(1)[k] == m[k + 1]);
        }
        lemma_rt_entries_rest(s, i + 1 + enc_entry(m[0]).len(), m.skip(1));
        assert(seq![m[0]] + m.skip(1) =~= m);
    }
}

/// Reading all entries back, up to the closing brace.
#[verifier::rlimit(100)]
pub proof fn lemma_rt_entries(s: Seq<char>, i: int, l: Seq<ArticleView>)
    requires
        forall|k: int| 0 <= k < l.len() ==> (#[trigger] l[k]).added.wf(),
        0 <= i,
        i + enc_entries(l).len() + 1 <= s.len(),
        s.subrange(i, i + enc_entries(l).len()) == enc_entries(l),
        s[i + enc_entries(l).len()] == '}',
    ensures
        ps_entries(s, i) == Some((l, i + enc_entries(l).len())),
{
    if l.len() == 0 {
        assert(s[i] == '}');
    } else {
        lemma_enc_entries_front(l);
        lemma_region_split(s, i, enc_entry(l[0]), enc_entries_rest(l.skip(1)));
        lemma_rt_entry(s, i, l[0]);
        assert(s.subrange(i, i + enc_entry(l[0]).len())[0] == enc_entry(l[0])[0]);
        assert(enc_entry(l[0])[0] == '"');
        assert(s[i] == '"');
        assert forall|k: int| 0 <= k < l.skip(1).len() implies (
        #[trigger] l.skip(1)[k]).added.wf() by {
            assert(l.skip(1)[k] == l[k + 1]);
        }
        lemma_rt_entries_rest(s, i + enc_entry(l[0]).len(), l.skip(1));
        assert(seq![l[0]] + l.skip(1) =~= l);
    }
}

/// Round trip: deserializing a serialized index yields an index with
/// identical ids, fields and change sets. Holds for every index the library
/// can hold: ids sorted and timestamps within range.
#[verifier::rlimit(100)]
pub proof fn lemma_round_trip(m: Seq<ArticleView>)
    requires
        crate::index::sorted_ids(m),
        forall|k: int| 0 <= k < m.len() ==> (#[trigger] m[k]).added.wf(),
    ensures
        dec_index(enc_index(m)) == Some(m),
{
    reveal_strlit("{\"articles\":{");
    reveal_strlit("}}");
    let s = enc_index(m);
    let head = "{\"articles\":{"@;
    assert(s =~= head + (enc_entries(m) + "}}"@));
    assert(s.subrange(0, s.len() as int) =~= s);
    lemma_region_split(s, 0, head, enc_entries(m) + "}}"@);
    lemma_region_split(s, head.len() as int, enc_entries(m), "}}"@);
    assert(ps_lit(s, 0, head) == Some(head.len() as int));
    let j = head.len() as int;
    let j2 = j + enc_entries(m).len();
    assert(s.subrange(j2, j2 + 2)[0] == '}');
    assert(s[j2] == '}');
    lemma_rt_entries(s, j, m);
    assert(ps_lit(s, j2, "}}"@) == Some(j2 + 2));
    assert(j2 + 2 == s.len());
    assert(adjacent_sorted(m)) by {
        assert forall|k: int| 0 <= k < m.len() - 1 implies lex_lt(
            #[trigger] m[k].id,
            m[k + 1].id,
        ) by {
            assert(lex_lt(m[k].id, m[k + 1].id));
        }
    }
}

} // verus!
