//! The chat demo's data layer: parsing a chat transcript out of plain text,
//! and paging through the parsed history.
//!
//! A transcript holds one message per line, `name: content`; the name `me`
//! marks the user's own messages. A timed transcript prefixes each name with
//! a delay, `name, seconds: content`, with the seconds given as a decimal.

use vstd::prelude::*;

verus! {

/// First position of `c` in `s`, if any.
pub open spec fn find_char(s: Seq<char>, c: char) -> Option<int>
    decreases s.len(),
{
    if s.len() == 0 {
        None
    } else if s[0] == c {
        Some(0)
    } else {
        match find_char(s.skip(1), c) {
            Some(i) => Some(i + 1),
            None => None,
        }
    }
}

/// First position of the separator `": "` in `s`, if any.
pub open spec fn find_sep(s: Seq<char>, sep: char) -> Option<int>
    decreases s.len(),
{
    if s.len() < 2 {
        None
    } else if s[0] == sep && s[1] == ' ' {
        Some(0)
    } else {
        match find_sep(s.skip(1), sep) {
            Some(i) => Some(i + 1),
            None => None,
        }
    }
}

/// A found character is where the search says, and nothing earlier matches.
pub proof fn lemma_find_char_at(s: Seq<char>, c: char, i: int)
    requires
        0 <= i < s.len(),
        s[i] == c,
        forall|x: int| 0 <= x < i ==> s[x] != c,
    ensures
        find_char(s, c) == Some(i),
    decreases i,
{
    if i > 0 {
        assert forall|x: int| 0 <= x < i - 1 implies s.skip(1)[x] != c by {
            assert(s.skip(1)[x] == s[x + 1]);
        }
        assert(s.skip(1)[i - 1] == s[i]);
        lemma_find_char_at(s.skip(1), c, i - 1);
    }
}

pub proof fn lemma_find_char_none(s: Seq<char>, c: char)
    requires
        forall|x: int| 0 <= x < s.len() ==> s[x] != c,
    ensures
        find_char(s, c) is None,
    decreases s.len(),
{
    if s.len() > 0 {
        assert forall|x: int| 0 <= x < s.skip(1).len() implies s.skip(1)[x] != c by {
            assert(s.skip(1)[x] == s[x + 1]);
        }
        lemma_find_char_none(s.skip(1), c);
    }
}

/// A found separator is where the search says, and nothing earlier matches.
pub proof fn lemma_find_sep_at(s: Seq<char>, sep: char, i: int)
    requires
        0 <= i,
        i + 1 < s.len(),
        s[i] == sep,
        s[i + 1] == ' ',
        forall|x: int| 0 <= x < i ==> !(#[trigger] s[x] == sep && s[x + 1] == ' '),
    ensures
        find_sep(s, sep) == Some(i),
    decreases i,
{
    if i == 0 {
    } else {
        assert forall|x: int| 0 <= x < i - 1 implies !(#[trigger] s.skip(1)[x] == sep && s.skip(
            1,
        )[x + 1] == ' ') by {
            assert(s.skip(1)[x] == s[x + 1]);
            assert(s.skip(1)[x + 1] == s[x + 2]);
        }
        assert(s.skip(1)[i - 1] == s[i]);
        assert(s.skip(1)[i] == s[i + 1]);
        lemma_find_sep_at(s.skip(1), sep, i - 1);
        assert(!(s[0] == sep && s[1] == ' '));
    }
}

pub proof fn lemma_find_sep_none(s: Seq<char>, sep: char)
    requires
        forall|x: int| 0 <= x < s.len() - 1 ==> !(#[trigger] s[x] == sep && s[x + 1] == ' '),
    ensures
        find_sep(s, sep) is None,
    decreases s.len(),
{
    if s.len() >= 2 {
        assert forall|x: int| 0 <= x < s.skip(1).len() - 1 implies !(#[trigger] s.skip(1)[x] == sep
            && s.skip(1)[x + 1] == ' ') by {
            assert(s.skip(1)[x] == s[x + 1]);
            assert(s.skip(1)[x + 1] == s[x + 2]);
        }
        lemma_find_sep_none(s.skip(1), sep);
    }
}

/// The lines of a text: split at `'\n'` or at `"\r\n"`, a final terminator
/// adding no line — as `str::lines` reads it. A carriage return anywhere else
/// stays in the line.
pub open spec fn split_lines(s: Seq<char>) -> Seq<Seq<char>>
    decreases s.len(),
{
    if s.len() == 0 {
        Seq::empty()
    } else if s[0] == '\n' {
        seq![Seq::<char>::empty()] + split_lines(s.skip(1))
    } else if s.len() >= 2 && s[0] == '\r' && s[1] == '\n' {
        seq![Seq::<char>::empty()] + split_lines(s.skip(2))
    } else {
        let rest = split_lines(s.skip(1));
        if rest.len() == 0 {
            seq![s]
        } else {
            seq![seq![s[0]] + rest[0]] + rest.skip(1)
        }
    }
}

/// A line as its terminator leaves it: one carriage return just before the
/// newline belongs to the terminator, not to the line.
pub open spec fn strip_cr_end(l: Seq<char>) -> Seq<char> {
    if l.len() > 0 && l.last() == '\r' {
        l.drop_last()
    } else {
        l
    }
}

/// Splitting starts with the text up to the first newline — less a carriage
/// return directly before it — then the rest.
pub proof fn lemma_split_lines_head(s: Seq<char>, d: int)
    requires
        0 <= d < s.len(),
        s[d] == '\n',
        forall|x: int| 0 <= x < d ==> s[x] != '\n',
    ensures
        split_lines(s) == seq![strip_cr_end(s.take(d))] + split_lines(s.skip(d + 1)),
    decreases d,
{
    if d == 0 {
        assert(s.take(0) =~= Seq::<char>::empty());
    } else if d == 1 && s[0] == '\r' {
        assert(s.take(1).last() == s[0]);
        assert(strip_cr_end(s.take(1)) =~= Seq::<char>::empty());
        assert(split_lines(s) == seq![Seq::<char>::empty()] + split_lines(s.skip(2)));
    } else {
        assert forall|x: int| 0 <= x < d - 1 implies s.skip(1)[x] != '\n' by {
            assert(s.skip(1)[x] == s[x + 1]);
        }
        assert(s.skip(1)[d - 1] == s[d]);
        lemma_split_lines_head(s.skip(1), d - 1);
        let rest = split_lines(s.skip(1));
        let sub = s.skip(1).take(d - 1);
        assert(rest == seq![strip_cr_end(sub)] + split_lines(s.skip(1).skip(d)));
        assert(rest.len() > 0);
        assert(rest[0] == strip_cr_end(sub));
        // The text does not start with a terminator here.
        assert(s[0] != '\n');
        if s.len() >= 2 && s[0] == '\r' && s[1] == '\n' {
            assert(d == 1);
            assert(false);
        }
        // Prepending the first character commutes with stripping the
        // terminator's carriage return, which sits at the line's end.
        if d >= 2 {
            assert(sub.last() == s[d - 1]);
            assert(s.take(d).last() == s[d - 1]);
            if s[d - 1] == '\r' {
                assert(seq![s[0]] + strip_cr_end(sub) =~= s.take(d - 1));
                assert(strip_cr_end(s.take(d)) =~= s.take(d - 1));
            } else {
                assert(seq![s[0]] + strip_cr_end(sub) =~= s.take(d));
                assert(strip_cr_end(s.take(d)) =~= s.take(d));
            }
        } else {
            assert(d == 1 && s[0] != '\r');
            assert(sub =~= Seq::<char>::empty());
            assert(seq![s[0]] + strip_cr_end(sub) =~= s.take(1));
            assert(s.take(1).last() == s[0]);
            assert(strip_cr_end(s.take(1)) =~= s.take(1));
        }
        assert(s.skip(1).skip(d) =~= s.skip(d + 1));
        assert(rest.skip(1) =~= split_lines(s.skip(d + 1)));
        assert(split_lines(s) =~= seq![strip_cr_end(s.take(d))] + split_lines(s.skip(d + 1)));
    }
}

/// A text without newlines is one single line (or none, when empty).
pub proof fn lemma_split_lines_single(s: Seq<char>)
    requires
        s.len() > 0,
        forall|x: int| 0 <= x < s.len() ==> s[x] != '\n',
    ensures
        split_lines(s) == seq![s],
    decreases s.len(),
{
    if s.len() == 1 {
        assert(s.skip(1) =~= Seq::<char>::empty());
        assert(split_lines(s.skip(1)) =~= Seq::<Seq<char>>::empty());
        assert(split_lines(s) =~= seq![s]);
    } else {
        assert(s[1] != '\n');
        assert forall|x: int| 0 <= x < s.skip(1).len() implies s.skip(1)[x] != '\n' by {
            assert(s.skip(1)[x] == s[x + 1]);
        }
        lemma_split_lines_single(s.skip(1));
        assert(seq![s[0]] + s.skip(1) =~= s);
        assert(split_lines(s) =~= seq![s]);
    }
}

/// One step of a line walk: with `e` the first newline at or after `pos` (or
/// the text's end), and `le` the line's end with the terminator's carriage
/// return dropped, the text from `pos` splits into this line and the rest.
proof fn lemma_line_step(s: Seq<char>, pos: int, e: int, le: int, nextpos: int)
    requires
        0 <= pos < s.len(),
        pos <= e <= s.len(),
        forall|x: int| pos <= x < e ==> #[trigger] s[x] != '\n',
        e < s.len() ==> s[e] == '\n',
        le == (if e < s.len() && e > pos && s[e - 1] == '\r' {
            e - 1
        } else {
            e
        }),
        nextpos == (if e < s.len() {
            e + 1
        } else {
            s.len() as int
        }),
    ensures
        split_lines(s.skip(pos)) == seq![s.subrange(pos, le)] + split_lines(s.skip(nextpos)),
{
    let rest = s.skip(pos);
    let lineq = s.subrange(pos, le);
    if e < s.len() {
        let full = s.subrange(pos, e);
        assert(full =~= rest.take(e - pos));
        assert forall|x: int| 0 <= x < e - pos implies rest[x] != '\n' by {
            assert(rest[x] == s[pos + x]);
        }
        assert(rest[e - pos] == s[e]);
        lemma_split_lines_head(rest, e - pos);
        assert(rest.skip(e - pos + 1) =~= s.skip(e + 1));
        if e > pos {
            assert(full.last() == s[e - 1]);
            assert(strip_cr_end(full) =~= lineq);
        } else {
            assert(strip_cr_end(full) =~= lineq);
        }
    } else {
        assert(lineq =~= rest.take(e - pos));
        assert forall|x: int| 0 <= x < rest.len() implies rest[x] != '\n' by {
            assert(rest[x] == s[pos + x]);
        }
        assert(rest.len() > 0);
        lemma_split_lines_single(rest);
        assert(lineq =~= rest);
        assert(s.skip(nextpos) =~= Seq::<char>::empty());
        assert(split_lines(s.skip(nextpos)) =~= Seq::<Seq<char>>::empty());
        assert(split_lines(rest) =~= seq![lineq] + split_lines(s.skip(nextpos)));
    }
}

/// A message, in the mathematical model: its content and, for a message from
/// somebody else, the sender's name; `None` marks the user's own messages.
pub open spec fn msg_of_line(line: Seq<char>) -> (Seq<char>, Option<Seq<char>>) {
    match find_sep(line, ':') {
        Some(i) => {
            let name = line.take(i);
            let content = line.skip(i + 2);
            (
                content,
                if name == seq!['m', 'e'] {
                    None
                } else {
                    Some(name)
                },
            )
        },
        None => (line, None),
    }
}

/// The messages of a sequence of lines, empty lines left out.
pub open spec fn msgs_of_lines(lines: Seq<Seq<char>>) -> Seq<(Seq<char>, Option<Seq<char>>)>
    decreases lines.len(),
{
    if lines.len() == 0 {
        Seq::empty()
    } else if lines[0].len() == 0 {
        msgs_of_lines(lines.skip(1))
    } else {
        seq![msg_of_line(lines[0])] + msgs_of_lines(lines.skip(1))
    }
}

/// The messages of a transcript, in text order.
pub open spec fn messages_of(s: Seq<char>) -> Seq<(Seq<char>, Option<Seq<char>>)> {
    msgs_of_lines(split_lines(s))
}

/// A transcript is well formed when every nonempty line has the `": "`
/// separator.
pub open spec fn wf_transcript(s: Seq<char>) -> bool {
    forall|j: int|
        0 <= j < split_lines(s).len() && #[trigger] split_lines(s)[j].len() > 0 ==> find_sep(
            split_lines(s)[j],
            ':',
        ) is Some
}


/// The value of a decimal digit.
pub open spec fn digit_val(c: char) -> int {
    c as int - '0' as int
}

pub open spec fn is_digit(c: char) -> bool {
    '0' <= c && c <= '9'
}

/// The value of a string of decimal digits, most significant first.
pub open spec fn digits_val(s: Seq<char>) -> int
    decreases s.len(),
{
    if s.len() == 0 {
        0
    } else {
        digits_val(s.drop_last()) * 10 + digit_val(s.last())
    }
}

pub open spec fn pow10(n: nat) -> int
    decreases n,
{
    if n == 0 {
        1
    } else {
        10 * pow10((n - 1) as nat)
    }
}

pub proof fn lemma_digits_val_bound(s: Seq<char>)
    requires
        forall|x: int| 0 <= x < s.len() ==> is_digit(#[trigger] s[x]),
    ensures
        0 <= digits_val(s) < pow10(s.len()),
    decreases s.len(),
{
    if s.len() > 0 {
        assert forall|x: int| 0 <= x < s.drop_last().len() implies is_digit(
            #[trigger] s.drop_last()[x],
        ) by {
            assert(s.drop_last()[x] == s[x]);
        }
        lemma_digits_val_bound(s.drop_last());
        assert(digits_val(s.drop_last()) * 10 + digit_val(s.last()) < 10 * pow10(s.drop_last().len()))
            by (nonlinear_arith)
            requires
                digits_val(s.drop_last()) < pow10(s.drop_last().len()),
                digit_val(s.last()) < 10,
        ;
        assert(digits_val(s.drop_last()) * 10 >= 0) by (nonlinear_arith)
            requires
                digits_val(s.drop_last()) >= 0,
        ;
    }
}

/// Fractional seconds, scaled to milliseconds: at most three digits count.
pub open spec fn frac_millis(f: Seq<char>) -> int {
    if f.len() == 0 {
        0
    } else if f.len() == 1 {
        digits_val(f) * 100
    } else if f.len() == 2 {
        digits_val(f) * 10
    } else {
        digits_val(f.take(3))
    }
}

/// A decimal count of seconds, read as milliseconds: the digits before the
/// point are whole seconds, up to three digits after it are milliseconds.
pub open spec fn parse_secs_millis(d: Seq<char>) -> int {
    match find_char(d, '.') {
        Some(i) => digits_val(d.take(i)) * 1000 + frac_millis(d.skip(i + 1)),
        None => digits_val(d) * 1000,
    }
}

/// A duration text the parser accepts: decimal digits with at most one point,
/// at most six digits before it and three after. The width bound keeps the
/// arithmetic in machine range; milliseconds already cap the useful
/// precision, and scientific notation is not a duration this model reads.
pub open spec fn wf_duration(d: Seq<char>) -> bool {
    match find_char(d, '.') {
        Some(i) => {
            &&& i <= 6
            &&& d.len() - i - 1 <= 3
            &&& forall|x: int| 0 <= x < d.len() && x != i ==> is_digit(#[trigger] d[x])
        },
        None => d.len() <= 6 && forall|x: int| 0 <= x < d.len() ==> is_digit(#[trigger] d[x]),
    }
}

/// Read a run of digits `s[from .. to]` as a number.
fn digits_exec(s: &str, from: usize, to: usize) -> (r: u64)
    requires
        from <= to <= s@.len(),
        to - from <= 6,
        forall|x: int| from <= x < to ==> is_digit(#[trigger] s@[x]),
    ensures
        r == digits_val(s@.subrange(from as int, to as int)),
        r < 1000000,
{
    let ghost whole = s@.subrange(from as int, to as int);
    let mut val: u64 = 0;
    let mut x: usize = from;
    proof {
        assert(whole.take(0) =~= Seq::<char>::empty());
    }
    while x < to
        invariant
            from <= x <= to,
            to <= s@.len(),
            to - from <= 6,
            whole == s@.subrange(from as int, to as int),
            forall|k: int| from <= k < to ==> is_digit(#[trigger] s@[k]),
            val == digits_val(whole.take(x - from)),
            0 <= val < 1000000,
        decreases to - x,
    {
        let c = s.get_char(x);
        proof {
            let pre = whole.take(x - from);
            assert forall|k: int| 0 <= k < pre.len() implies is_digit(#[trigger] pre[k]) by {
                assert(pre[k] == s@[from + k]);
            }
            lemma_digits_val_bound(pre);
            lemma_pow10_mono((x - from) as nat, 5);
            lemma_pow10_small();
            assert(whole.take(x - from + 1).drop_last() =~= pre);
            assert(whole.take(x - from + 1).last() == s@[x as int]);
            assert(is_digit(s@[x as int]));
        }
        let d: u64 = ((c as u32) - ('0' as u32)) as u64;
        val = val * 10 + d;
        x = x + 1;
    }
    proof {
        assert(whole.take(to - from) =~= whole);
    }
    val
}

proof fn lemma_pow10_small()
    ensures
        pow10(0) == 1,
        pow10(1) == 10,
        pow10(2) == 100,
        pow10(3) == 1000,
        pow10(4) == 10000,
        pow10(5) == 100000,
        pow10(6) == 1000000,
{
    assert(pow10(0) == 1);
    assert(pow10(1) == 10);
    assert(pow10(2) == 100);
    assert(pow10(3) == 1000);
    assert(pow10(4) == 10000);
    assert(pow10(5) == 100000);
    assert(pow10(6) == 1000000);
}

pub proof fn lemma_pow10_mono(a: nat, b: nat)
    requires
        a <= b,
    ensures
        pow10(a) <= pow10(b),
        pow10(a) >= 1,
    decreases b,
{
    if a == b {
        lemma_pow10_pos(a);
    } else {
        lemma_pow10_mono(a, (b - 1) as nat);
    }
}

pub proof fn lemma_pow10_pos(a: nat)
    ensures
        pow10(a) >= 1,
    decreases a,
{
    if a > 0 {
        lemma_pow10_pos((a - 1) as nat);
    }
}

/// Read a well-formed duration text as milliseconds.
fn parse_millis(d: &str) -> (r: u64)
    requires
        wf_duration(d@),
    ensures
        r == parse_secs_millis(d@),
{
    let n = d.unicode_len();
    // Find the decimal point, if any.
    let mut dot: usize = 0;
    while dot < n && d.get_char(dot) != '.'
        invariant
            dot <= n,
            n == d@.len(),
            forall|x: int| 0 <= x < dot ==> #[trigger] d@[x] != '.',
        decreases n - dot,
    {
        dot = dot + 1;
    }
    proof {
        if dot < n {
            lemma_find_char_at(d@, '.', dot as int);
        } else {
            lemma_find_char_none(d@, '.');
        }
    }
    if dot < n {
        let whole = digits_exec(d, 0, dot);
        let fr_len = n - dot - 1;
        let fr_end = if fr_len > 3 {
            dot + 1 + 3
        } else {
            n
        };
        let fr_digits = digits_exec(d, dot + 1, fr_end);
        let fr: u64 = if fr_len == 0 {
            0
        } else if fr_len == 1 {
            fr_digits * 100
        } else if fr_len == 2 {
            fr_digits * 10
        } else {
            fr_digits
        };
        proof {
            let fpart = d@.skip(dot as int + 1);
            assert(d@.subrange(dot as int + 1, fr_end as int) =~= (if fpart.len() > 3 {
                fpart.take(3)
            } else {
                fpart
            }));
            assert(d@.take(dot as int) =~= d@.subrange(0, dot as int));
            if fpart.len() == 3 {
                assert(fpart.take(3) =~= fpart);
            }
        }
        whole * 1000 + fr
    } else {
        let whole = digits_exec(d, 0, n);
        proof {
            assert(d@.subrange(0, n as int) =~= d@);
        }
        whole * 1000
    }
}


/// One chat message: its text, and the sender's name for a message from
/// somebody else; `None` marks the user's own messages.
#[derive(Debug, Clone)]
pub struct ChatMessage {
    pub content: String,
    pub from: Option<String>,
}

/// A message as the mathematical model sees it.
pub open spec fn msg_view(m: ChatMessage) -> (Seq<char>, Option<Seq<char>>) {
    (
        m.content@,
        match m.from {
            Some(f) => Some(f@),
            None => None,
        },
    )
}

/// A sequence of messages, viewed.
pub open spec fn msgs_view(v: Seq<ChatMessage>) -> Seq<(Seq<char>, Option<Seq<char>>)> {
    v.map_values(|m: ChatMessage| msg_view(m))
}

fn clone_msg(m: &ChatMessage) -> (c: ChatMessage)
    ensures
        msg_view(c) == msg_view(*m),
{
    ChatMessage {
        content: m.content.clone(),
        from: match &m.from {
            Some(f) => Some(f.clone()),
            None => None,
        },
    }
}

/// Parse one `name: content` line into a message.
fn parse_message_line(line: &str) -> (m: ChatMessage)
    requires
        find_sep(line@, ':') is Some,
    ensures
        msg_view(m) == msg_of_line(line@),
{
    let n = line.unicode_len();
    let i = find_sep_exec(line, ':');
    let name_is_me = i == 2 && line.get_char(0) == 'm' && line.get_char(1) == 'e';
    proof {
        if name_is_me {
            assert(line@.take(2) =~= seq!['m', 'e']);
        } else {
            if i == 2 {
                assert(line@.take(i as int) != seq!['m', 'e']) by {
                    if line@.take(2) == seq!['m', 'e'] {
                        assert(line@.take(2)[0] == line@[0]);
                        assert(line@.take(2)[1] == line@[1]);
                    }
                }
            } else {
                assert(line@.take(i as int).len() != 2);
            }
        }
        assert(line@.subrange(i as int + 2, n as int) =~= line@.skip(i as int + 2));
        assert(line@.subrange(0, i as int) =~= line@.take(i as int));
    }
    let content = line.substring_char(i + 2, n).to_owned();
    let from = if name_is_me {
        None
    } else {
        Some(line.substring_char(0, i).to_owned())
    };
    ChatMessage { content, from }
}

/// Decide where the first `sep` followed by a space stands, if anywhere.
fn find_sep_opt(line: &str, sep: char) -> (r: Option<usize>)
    ensures
        r matches Some(i) ==> find_sep(line@, sep) == Some(i as int) && i + 2 <= line@.len()
            && line@[i as int] == sep && line@[i as int + 1] == ' ',
        r is None ==> find_sep(line@, sep) is None,
{
    let n = line.unicode_len();
    if n < 2 {
        return None;
    }
    let mut i: usize = 0;
    while i < n - 1 && !(line.get_char(i) == sep && line.get_char(i + 1) == ' ')
        invariant
            n == line@.len(),
            2 <= n,
            i <= n - 1,
            forall|x: int| 0 <= x < i ==> !(#[trigger] line@[x] == sep && line@[x + 1] == ' '),
        decreases n - i,
    {
        i = i + 1;
    }
    if i < n - 1 {
        proof {
            lemma_find_sep_at(line@, sep, i as int);
        }
        Some(i)
    } else {
        proof {
            lemma_find_sep_none(line@, sep);
        }
        None
    }
}

/// Position of the first `sep` followed by a space, where one is known to be.
fn find_sep_exec(line: &str, sep: char) -> (i: usize)
    requires
        find_sep(line@, sep) is Some,
    ensures
        find_sep(line@, sep) == Some(i as int),
        i + 2 <= line@.len(),
        line@[i as int] == sep,
        line@[i as int + 1] == ' ',
{
    match find_sep_opt(line, sep) {
        Some(i) => i,
        None => {
            proof {
                assert(false);
            }
            0
        },
    }
}

/// A timed message, in the mathematical model: the message, and its delay in
/// milliseconds. A line reads `name, seconds: content`.
pub open spec fn timed_of_line(line: Seq<char>) -> ((Seq<char>, Option<Seq<char>>), int) {
    match find_sep(line, ':') {
        Some(i) => {
            let head = line.take(i);
            let content = line.skip(i + 2);
            match find_sep(head, ',') {
                Some(j) => {
                    let name = head.take(j);
                    (
                        (
                            content,
                            if name == seq!['m', 'e'] {
                                None
                            } else {
                                Some(name)
                            },
                        ),
                        parse_secs_millis(head.skip(j + 2)),
                    )
                },
                None => ((content, None), 0),
            }
        },
        None => ((line, None), 0),
    }
}

/// The timed messages of a sequence of lines, empty lines left out.
pub open spec fn timed_of_lines(lines: Seq<Seq<char>>) -> Seq<
    ((Seq<char>, Option<Seq<char>>), int),
>
    decreases lines.len(),
{
    if lines.len() == 0 {
        Seq::empty()
    } else if lines[0].len() == 0 {
        timed_of_lines(lines.skip(1))
    } else {
        seq![timed_of_line(lines[0])] + timed_of_lines(lines.skip(1))
    }
}

/// The timed messages of a transcript, in text order.
pub open spec fn timed_messages_of(s: Seq<char>) -> Seq<((Seq<char>, Option<Seq<char>>), int)> {
    timed_of_lines(split_lines(s))
}

/// A timed line is well formed when it has the `": "` separator, its head has
/// the `", "` separator, and what follows that is a well-formed duration.
pub open spec fn wf_timed_line(line: Seq<char>) -> bool {
    match find_sep(line, ':') {
        Some(i) => match find_sep(line.take(i), ',') {
            Some(j) => wf_duration(line.take(i).skip(j + 2)),
            None => false,
        },
        None => false,
    }
}

/// A timed transcript is well formed when every nonempty line is a
/// well-formed timed line.
pub open spec fn wf_timed_transcript(s: Seq<char>) -> bool {
    forall|j: int|
        0 <= j < split_lines(s).len() && #[trigger] split_lines(s)[j].len() > 0 ==> wf_timed_line(
            split_lines(s)[j],
        )
}

/// A sequence of timed messages, viewed.
pub open spec fn timed_view(v: Seq<(ChatMessage, u64)>) -> Seq<
    ((Seq<char>, Option<Seq<char>>), int),
> {
    v.map_values(|p: (ChatMessage, u64)| (msg_view(p.0), p.1 as int))
}

/// Parse one `name, seconds: content` line into a message and its delay.
fn parse_timed_line(line: &str) -> (r: (ChatMessage, u64))
    requires
        wf_timed_line(line@),
    ensures
        (msg_view(r.0), r.1 as int) == timed_of_line(line@),
{
    let n = line.unicode_len();
    let i = find_sep_exec(line, ':');
    let head = line.substring_char(0, i);
    proof {
        assert(head@ =~= line@.take(i as int));
    }
    let j = find_sep_exec(head, ',');
    let name_is_me = j == 2 && head.get_char(0) == 'm' && head.get_char(1) == 'e';
    proof {
        if name_is_me {
            assert(head@.take(2) =~= seq!['m', 'e']);
        } else {
            if j == 2 {
                assert(head@.take(j as int) != seq!['m', 'e']) by {
                    if head@.take(2) == seq!['m', 'e'] {
                        assert(head@.take(2)[0] == head@[0]);
                        assert(head@.take(2)[1] == head@[1]);
                    }
                }
            } else {
                assert(head@.take(j as int).len() != 2);
            }
        }
        assert(head@.subrange(j as int + 2, i as int) =~= head@.skip(j as int + 2));
        assert(head@.subrange(0, j as int) =~= head@.take(j as int));
        assert(line@.subrange(i as int + 2, n as int) =~= line@.skip(i as int + 2));
    }
    let secs = head.substring_char(j + 2, i);
    let millis = parse_millis(secs);
    let content = line.substring_char(i + 2, n).to_owned();
    let from = if name_is_me {
        None
    } else {
        Some(head.substring_char(0, j).to_owned())
    };
    (ChatMessage { content, from }, millis)
}


/// Position of the first newline at or after `from`, or the text's length.
fn find_newline(s: &str, from: usize) -> (e: usize)
    requires
        from <= s@.len(),
    ensures
        from <= e <= s@.len(),
        forall|x: int| from <= x < e ==> #[trigger] s@[x] != '\n',
        e < s@.len() ==> s@[e as int] == '\n',
{
    let n = s.unicode_len();
    let mut e: usize = from;
    while e < n && s.get_char(e) != '\n'
        invariant
            n == s@.len(),
            from <= e <= n,
            forall|x: int| from <= x < e ==> #[trigger] s@[x] != '\n',
        decreases n - e,
    {
        e = e + 1;
    }
    e
}

/// Parse a whole transcript, one message per nonempty line, in text order.
fn parse_messages(s: &str) -> (v: Vec<ChatMessage>)
    requires
        wf_transcript(s@),
    ensures
        msgs_view(v@) == messages_of(s@),
{
    let n = s.unicode_len();
    let mut v: Vec<ChatMessage> = Vec::new();
    let mut pos: usize = 0;
    proof {
        assert(s@.skip(0) =~= s@);
        assert(msgs_view(v@) + msgs_of_lines(split_lines(s@)) =~= msgs_of_lines(split_lines(s@)));
    }
    while pos < n
        invariant
            n == s@.len(),
            pos <= n,
            wf_transcript(s@),
            msgs_view(v@) + msgs_of_lines(split_lines(s@.skip(pos as int))) == messages_of(s@),
            forall|j: int|
                0 <= j < split_lines(s@.skip(pos as int)).len() && #[trigger] split_lines(
                    s@.skip(pos as int),
                )[j].len() > 0 ==> find_sep(split_lines(s@.skip(pos as int))[j], ':') is Some,
        decreases n - pos,
    {
        let ghost rest = s@.skip(pos as int);
        let e = find_newline(s, pos);
        let le: usize = if e < n && e > pos && s.get_char(e - 1) == '\r' {
            e - 1
        } else {
            e
        };
        let ghost lineq = s@.subrange(pos as int, le as int);
        let ghost nextrest = if e < n {
            s@.skip(e as int + 1)
        } else {
            s@.skip(n as int)
        };
        proof {
            let nextpos: int = if e < n {
                e as int + 1
            } else {
                n as int
            };
            lemma_line_step(s@, pos as int, e as int, le as int, nextpos);
            assert(nextrest =~= s@.skip(nextpos));
            assert(split_lines(rest) == seq![lineq] + split_lines(nextrest));
            assert(split_lines(rest)[0] == lineq);
            assert(split_lines(rest).skip(1) =~= split_lines(nextrest));
            assert forall|j: int|
                0 <= j < split_lines(nextrest).len() && #[trigger] split_lines(nextrest)[j].len()
                    > 0 implies find_sep(split_lines(nextrest)[j], ':') is Some by {
                assert(split_lines(rest)[j + 1] == split_lines(nextrest)[j]);
            }
        }
        if le > pos {
            let line = s.substring_char(pos, le);
            let m = parse_message_line(&line);
            proof {
                assert(msgs_of_lines(split_lines(rest)) == seq![msg_of_line(lineq)]
                    + msgs_of_lines(split_lines(nextrest)));
                assert(msgs_view(v@.push(m)) =~= msgs_view(v@) + seq![msg_view(m)]);
                assert((msgs_view(v@) + seq![msg_view(m)]) + msgs_of_lines(split_lines(nextrest))
                    =~= msgs_view(v@) + (seq![msg_view(m)] + msgs_of_lines(split_lines(nextrest))));
            }
            v.push(m);
        } else {
            proof {
                assert(msgs_of_lines(split_lines(rest)) == msgs_of_lines(split_lines(nextrest)));
            }
        }
        pos = if e < n {
            e + 1
        } else {
            n
        };
    }
    proof {
        assert(s@.skip(n as int) =~= Seq::<char>::empty());
        assert(split_lines(Seq::<char>::empty()) =~= Seq::<Seq<char>>::empty());
        assert(msgs_view(v@) + Seq::<(Seq<char>, Option<Seq<char>>)>::empty() =~= msgs_view(v@));
    }
    v
}

/// Parse a whole timed transcript, in text order.
fn parse_timed_messages(s: &str) -> (v: Vec<(ChatMessage, u64)>)
    requires
        wf_timed_transcript(s@),
    ensures
        timed_view(v@) == timed_messages_of(s@),
{
    let n = s.unicode_len();
    let mut v: Vec<(ChatMessage, u64)> = Vec::new();
    let mut pos: usize = 0;
    proof {
        assert(s@.skip(0) =~= s@);
        assert(timed_view(v@) + timed_of_lines(split_lines(s@)) =~= timed_of_lines(
            split_lines(s@),
        ));
    }
    while pos < n
        invariant
            n == s@.len(),
            pos <= n,
            wf_timed_transcript(s@),
            timed_view(v@) + timed_of_lines(split_lines(s@.skip(pos as int))) == timed_messages_of(
                s@,
            ),
            forall|j: int|
                0 <= j < split_lines(s@.skip(pos as int)).len() && #[trigger] split_lines(
                    s@.skip(pos as int),
                )[j].len() > 0 ==> wf_timed_line(split_lines(s@.skip(pos as int))[j]),
        decreases n - pos,
    {
        let ghost rest = s@.skip(pos as int);
        let e = find_newline(s, pos);
        let le: usize = if e < n && e > pos && s.get_char(e - 1) == '\r' {
            e - 1
        } else {
            e
        };
        let ghost lineq = s@.subrange(pos as int, le as int);
        let ghost nextrest = if e < n {
            s@.skip(e as int + 1)
        } else {
            s@.skip(n as int)
        };
        proof {
            let nextpos: int = if e < n {
                e as int + 1
            } else {
                n as int
            };
            lemma_line_step(s@, pos as int, e as int, le as int, nextpos);
            assert(nextrest =~= s@.skip(nextpos));
            assert(split_lines(rest) == seq![lineq] + split_lines(nextrest));
            assert(split_lines(rest)[0] == lineq);
            assert(split_lines(rest).skip(1) =~= split_lines(nextrest));
            assert forall|j: int|
                0 <= j < split_lines(nextrest).len() && #[trigger] split_lines(nextrest)[j].len()
                    > 0 implies wf_timed_line(split_lines(nextrest)[j]) by {
                assert(split_lines(rest)[j + 1] == split_lines(nextrest)[j]);
            }
        }
        if le > pos {
            let line = s.substring_char(pos, le);
            let p = parse_timed_line(&line);
            proof {
                assert(timed_of_lines(split_lines(rest)) == seq![timed_of_line(lineq)]
                    + timed_of_lines(split_lines(nextrest)));
                assert(timed_view(v@.push(p)) =~= timed_view(v@) + seq![
                    (msg_view(p.0), p.1 as int),
                ]);
                assert((timed_view(v@) + seq![(msg_view(p.0), p.1 as int)]) + timed_of_lines(
                    split_lines(nextrest),
                ) =~= timed_view(v@) + (seq![(msg_view(p.0), p.1 as int)] + timed_of_lines(
                    split_lines(nextrest),
                )));
            }
            v.push(p);
        } else {
            proof {
                assert(timed_of_lines(split_lines(rest)) == timed_of_lines(split_lines(nextrest)));
            }
        }
        pos = if e < n {
            e + 1
        } else {
            n
        };
    }
    proof {
        assert(s@.skip(n as int) =~= Seq::<char>::empty());
        assert(split_lines(Seq::<char>::empty()) =~= Seq::<Seq<char>>::empty());
        assert(timed_view(v@) + Seq::<((Seq<char>, Option<Seq<char>>), int)>::empty() =~= timed_view(
            v@,
        ));
    }
    v
}


/// Five copies of a sequence, one after another.
pub open spec fn repeat5<A>(s: Seq<A>) -> Seq<A> {
    s + s + s + s + s
}

pub proof fn lemma_repeat5_index<A>(s: Seq<A>, c: int, o: int)
    requires
        0 <= c < 5,
        0 <= o < s.len(),
    ensures
        0 <= c * s.len() + o < repeat5(s).len(),
        repeat5(s)[c * s.len() + o] == s[o],
{
    let l = s.len() as int;
    if c == 0 {
        assert(repeat5(s)[o] == s[o]);
    } else if c == 1 {
        assert(repeat5(s)[l + o] == s[o]);
    } else if c == 2 {
        assert(repeat5(s)[2 * l + o] == s[o]);
    } else if c == 3 {
        assert(repeat5(s)[3 * l + o] == s[o]);
    } else {
        assert(repeat5(s)[4 * l + o] == s[o]);
    }
}

/// How many messages one page of history holds.
pub const PAGE_SIZE: usize = 10;

/// The chat demo's data: the full history (the parsed transcript, newest
/// first, repeated five times to make it long), and the timed messages that
/// arrive while the demo runs.
#[derive(Debug)]
pub struct HistoryLoader {
    pub history: Vec<ChatMessage>,
    pub messages: Vec<(ChatMessage, u64)>,
}

impl HistoryLoader {
    /// Parse the two transcripts. The history is the first transcript's
    /// messages newest first, repeated five times; the timed messages are the
    /// second transcript's, in text order, with their delays in milliseconds.
    pub fn new(history_text: &str, messages_text: &str) -> (hl: Self)
        requires
            wf_transcript(history_text@),
            wf_timed_transcript(messages_text@),
        ensures
            msgs_view(hl.history@) == repeat5(messages_of(history_text@).reverse()),
            timed_view(hl.messages@) == timed_messages_of(messages_text@),
    {
        let base = parse_messages(history_text);
        let ghost target = repeat5(messages_of(history_text@).reverse());
        let l = base.len();
        let mut history: Vec<ChatMessage> = Vec::new();
        let mut rep: usize = 0;
        while rep < 5
            invariant
                l == base@.len(),
                rep <= 5,
                msgs_view(base@) == messages_of(history_text@),
                target == repeat5(messages_of(history_text@).reverse()),
                target.len() == 5 * l,
                history@.len() == rep * l,
                forall|k: int|
                    0 <= k < history@.len() ==> msg_view(#[trigger] history@[k]) == target[k],
            decreases 5 - rep,
        {
            let mut o: usize = 0;
            while o < l
                invariant
                    l == base@.len(),
                    rep < 5,
                    o <= l,
                    msgs_view(base@) == messages_of(history_text@),
                    target == repeat5(messages_of(history_text@).reverse()),
                    target.len() == 5 * l,
                    history@.len() == rep * l + o,
                    forall|k: int|
                        0 <= k < history@.len() ==> msg_view(#[trigger] history@[k]) == target[k],
                decreases l - o,
            {
                let m = clone_msg(&base[l - 1 - o]);
                proof {
                    lemma_repeat5_index(
                        messages_of(history_text@).reverse(),
                        rep as int,
                        o as int,
                    );
                    assert(messages_of(history_text@).reverse()[o as int] == messages_of(
                        history_text@,
                    )[l - 1 - o]);
                    assert(msgs_view(base@)[l - 1 - o] == msg_view(base@[l - 1 - o]));
                }
                history.push(m);
                o = o + 1;
            }
            proof {
                assert((rep + 1) * l == rep * l + l) by (nonlinear_arith);
            }
            rep = rep + 1;
        }
        proof {
            assert(msgs_view(history@) =~= target);
        }
        let messages = parse_timed_messages(messages_text);
        HistoryLoader { history, messages }
    }

    /// One page of history: up to `PAGE_SIZE` messages starting at the given
    /// page, oldest last (the slice is reversed), and the next page's number
    /// where more history remains.
    pub fn load(&self, page: Option<usize>) -> (r: (Vec<ChatMessage>, Option<usize>))
        requires
            page matches Some(p) ==> p * PAGE_SIZE <= self.history@.len(),
        ensures
            ({
                let p = (match page {
                    Some(p) => p as int,
                    None => 0,
                });
                let start = p * PAGE_SIZE;
                let end = if start + PAGE_SIZE <= self.history@.len() {
                    start + PAGE_SIZE
                } else {
                    self.history@.len() as int
                };
                &&& r.0@.len() == end - start
                &&& forall|x: int|
                    0 <= x < end - start ==> msg_view(#[trigger] r.0@[x]) == msg_view(
                        self.history@[end - 1 - x],
                    )
                &&& r.1 == (if end < self.history@.len() {
                    Some((p + 1) as usize)
                } else {
                    None::<usize>
                })
            }),
    {
        let n = self.history.len();
        let p = match page {
            Some(p) => p,
            None => 0,
        };
        let start = p * PAGE_SIZE;
        let end = if n - start > PAGE_SIZE {
            start + PAGE_SIZE
        } else {
            n
        };
        let mut out: Vec<ChatMessage> = Vec::new();
        let mut x: usize = 0;
        while x < end - start
            invariant
                start <= end <= n,
                n == self.history@.len(),
                x <= end - start,
                out@.len() == x,
                forall|k: int|
                    0 <= k < x ==> msg_view(#[trigger] out@[k]) == msg_view(
                        self.history@[end - 1 - k],
                    ),
            decreases end - start - x,
        {
            out.push(clone_msg(&self.history[end - 1 - x]));
            x = x + 1;
        }
        let more = if end < n {
            Some(p + 1)
        } else {
            None
        };
        (out, more)
    }
}


/// Decide whether a duration text is one the parser accepts.
fn duration_is_wf(d: &str) -> (r: bool)
    ensures
        r == wf_duration(d@),
{
    let n = d.unicode_len();
    let mut dot: usize = 0;
    while dot < n && d.get_char(dot) != '.'
        invariant
            dot <= n,
            n == d@.len(),
            forall|x: int| 0 <= x < dot ==> #[trigger] d@[x] != '.',
        decreases n - dot,
    {
        dot = dot + 1;
    }
    proof {
        if dot < n {
            lemma_find_char_at(d@, '.', dot as int);
        } else {
            lemma_find_char_none(d@, '.');
        }
    }
    if dot < n {
        if dot > 6 || n - dot - 1 > 3 {
            return false;
        }
        all_digits_except(d, dot)
    } else {
        if n > 6 {
            return false;
        }
        all_digits_except(d, n)
    }
}

/// Whether every character but the one at `skip_at` is a decimal digit; an
/// index at or past the end skips nothing.
fn all_digits_except(d: &str, skip_at: usize) -> (r: bool)
    ensures
        r == forall|x: int| 0 <= x < d@.len() && x != skip_at ==> is_digit(#[trigger] d@[x]),
{
    let n = d.unicode_len();
    let mut x: usize = 0;
    while x < n
        invariant
            x <= n,
            n == d@.len(),
            forall|k: int| 0 <= k < x && k != skip_at ==> is_digit(#[trigger] d@[k]),
        decreases n - x,
    {
        if x != skip_at {
            let u = d.get_char(x) as u32;
            if !(48 <= u && u <= 57) {
                proof {
                    assert(!is_digit(d@[x as int]));
                }
                return false;
            }
            proof {
                assert(is_digit(d@[x as int]));
            }
        }
        x = x + 1;
    }
    true
}

/// Decide whether a line is a well-formed timed line.
fn timed_line_is_wf(line: &str) -> (r: bool)
    ensures
        r == wf_timed_line(line@),
{
    match find_sep_opt(line, ':') {
        None => false,
        Some(i) => {
            let head = line.substring_char(0, i);
            proof {
                assert(head@ =~= line@.take(i as int));
            }
            match find_sep_opt(&head, ',') {
                None => false,
                Some(j) => {
                    let secs = head.substring_char(j + 2, i);
                    proof {
                        assert(secs@ =~= head@.skip(j as int + 2));
                    }
                    duration_is_wf(&secs)
                },
            }
        },
    }
}


/// Decide whether a transcript is well formed, so that a host can test the
/// parser's precondition before handing a text over.
pub fn transcript_is_wf(s: &str) -> (r: bool)
    ensures
        r == wf_transcript(s@),
{
    let n = s.unicode_len();
    let mut pos: usize = 0;
    let ghost mut done: Seq<Seq<char>> = Seq::empty();
    proof {
        assert(s@.skip(0) =~= s@);
        assert(done + split_lines(s@) =~= split_lines(s@));
    }
    while pos < n
        invariant
            n == s@.len(),
            pos <= n,
            split_lines(s@) == done + split_lines(s@.skip(pos as int)),
            forall|j: int|
                0 <= j < done.len() && #[trigger] done[j].len() > 0 ==> find_sep(done[j], ':')
                    is Some,
        decreases n - pos,
    {
        let ghost rest = s@.skip(pos as int);
        let e = find_newline(s, pos);
        let le: usize = if e < n && e > pos && s.get_char(e - 1) == '\r' {
            e - 1
        } else {
            e
        };
        let ghost lineq = s@.subrange(pos as int, le as int);
        let ghost nextrest = if e < n {
            s@.skip(e as int + 1)
        } else {
            s@.skip(n as int)
        };
        proof {
            let nextpos: int = if e < n {
                e as int + 1
            } else {
                n as int
            };
            lemma_line_step(s@, pos as int, e as int, le as int, nextpos);
            assert(nextrest =~= s@.skip(nextpos));
            assert(split_lines(rest) == seq![lineq] + split_lines(nextrest));
        }
        if le > pos {
            let line = s.substring_char(pos, le);
            let sep = find_sep_opt(&line, ':');
            if sep.is_none() {
                proof {
                    assert(split_lines(s@)[done.len() as int] == (seq![lineq] + split_lines(
                        nextrest,
                    ))[0]);
                    assert(split_lines(s@)[done.len() as int] == lineq);
                    assert(lineq.len() > 0);
                    assert(!(find_sep(lineq, ':') is Some));
                }
                return false;
            }
        }
        proof {
            let done2 = done.push(lineq);
            assert forall|j: int|
                0 <= j < done2.len() && #[trigger] done2[j].len() > 0 implies find_sep(
                done2[j],
                ':',
            ) is Some by {
                if j < done.len() {
                    assert(done2[j] == done[j]);
                } else {
                    assert(done2[j] == lineq);
                }
            }
            assert((done + (seq![lineq] + split_lines(nextrest))) =~= (done.push(lineq)
                + split_lines(nextrest)));
            done = done2;
        }
        pos = if e < n {
            e + 1
        } else {
            n
        };
    }
    proof {
        assert(s@.skip(n as int) =~= Seq::<char>::empty());
        assert(split_lines(Seq::<char>::empty()) =~= Seq::<Seq<char>>::empty());
        assert(done + Seq::<Seq<char>>::empty() =~= done);
        assert(done == split_lines(s@));
    }
    true
}

/// Decide whether a timed transcript is well formed.
pub fn timed_transcript_is_wf(s: &str) -> (r: bool)
    ensures
        r == wf_timed_transcript(s@),
{
    let n = s.unicode_len();
    let mut pos: usize = 0;
    let ghost mut done: Seq<Seq<char>> = Seq::empty();
    proof {
        assert(s@.skip(0) =~= s@);
        assert(done + split_lines(s@) =~= split_lines(s@));
    }
    while pos < n
        invariant
            n == s@.len(),
            pos <= n,
            split_lines(s@) == done + split_lines(s@.skip(pos as int)),
            forall|j: int|
                0 <= j < done.len() && #[trigger] done[j].len() > 0 ==> wf_timed_line(done[j]),
        decreases n - pos,
    {
        let ghost rest = s@.skip(pos as int);
        let e = find_newline(s, pos);
        let le: usize = if e < n && e > pos && s.get_char(e - 1) == '\r' {
            e - 1
        } else {
            e
        };
        let ghost lineq = s@.subrange(pos as int, le as int);
        let ghost nextrest = if e < n {
            s@.skip(e as int + 1)
        } else {
            s@.skip(n as int)
        };
        proof {
            let nextpos: int = if e < n {
                e as int + 1
            } else {
                n as int
            };
            lemma_line_step(s@, pos as int, e as int, le as int, nextpos);
            assert(nextrest =~= s@.skip(nextpos));
            assert(split_lines(rest) == seq![lineq] + split_lines(nextrest));
        }
        if le > pos {
            let line = s.substring_char(pos, le);
            if !timed_line_is_wf(&line) {
                proof {
                    assert(split_lines(s@)[done.len() as int] == (seq![lineq] + split_lines(
                        nextrest,
                    ))[0]);
                    assert(split_lines(s@)[done.len() as int] == lineq);
                    assert(lineq.len() > 0);
                    assert(!wf_timed_line(lineq));
                }
                return false;
            }
        }
        proof {
            let done2 = done.push(lineq);
            assert forall|j: int|
                0 <= j < done2.len() && #[trigger] done2[j].len() > 0 implies wf_timed_line(
                done2[j],
            ) by {
                if j < done.len() {
                    assert(done2[j] == done[j]);
                } else {
                    assert(done2[j] == lineq);
                }
            }
            assert((done + (seq![lineq] + split_lines(nextrest))) =~= (done.push(lineq)
                + split_lines(nextrest)));
            done = done2;
        }
        pos = if e < n {
            e + 1
        } else {
            n
        };
    }
    proof {
        assert(s@.skip(n as int) =~= Seq::<char>::empty());
        assert(split_lines(Seq::<char>::empty()) =~= Seq::<Seq<char>>::empty());
        assert(done + Seq::<Seq<char>>::empty() =~= done);
        assert(done == split_lines(s@));
    }
    true
}

} // verus!
