//! Numbers and times as a person says them, and the one line of settings.

use vstd::prelude::*;
use vstd::string::*;

verus! {

/// The texts of a list of strings.
pub open spec fn texts(list: Seq<String>) -> Seq<Seq<char>> {
    list.map_values(|s: String| s@)
}

// ---------------------------------------------------------------------
// Numbers
// ---------------------------------------------------------------------
/// The figure for a number below ten.
pub open spec fn digit(d: nat) -> char {
    (48 + d) as char
}

/// A number in decimal.
pub open spec fn decimal_text(n: nat) -> Seq<char>
    decreases n,
{
    if n < 10 {
        seq![digit(n)]
    } else {
        decimal_text(n / 10).push(digit(n % 10))
    }
}

fn figure(d: u64) -> (s: &'static str)
    requires
        d < 10,
    ensures
        s@ == seq![digit(d as nat)],
{
    let figures = "0123456789";
    proof {
        reveal_strlit("0123456789");
    }
    let s = figures.substring_char(d as usize, d as usize + 1);
    assert(s@ =~= seq![digit(d as nat)]);
    s
}

/// A number in decimal.
pub fn decimal(n: u64) -> (s: String)
    ensures
        s@ == decimal_text(n as nat),
    decreases n,
{
    if n < 10 {
        figure(n).to_string()
    } else {
        let mut s = decimal(n / 10);
        s.append(figure(n % 10));
        assert(s@ =~= decimal_text(n as nat));
        s
    }
}

/// `num` over `den` to the nearest whole number. A tie goes to the even one.
pub open spec fn nearest(num: int, den: int) -> int {
    let q = num / den;
    let r = num % den;
    if 2 * r > den || (2 * r == den && q % 2 == 1) {
        q + 1
    } else {
        q
    }
}

fn round_div(num: u128, den: u128) -> (q: u128)
    requires
        0 < den <= 0x1_0000_0000,
    ensures
        q == nearest(num as int, den as int),
{
    let q: u128 = num / den;
    let r: u128 = num % den;
    if 2 * r > den || (2 * r == den && q % 2 == 1) {
        assert(q < u128::MAX) by (nonlinear_arith)
            requires
                q == num / den,
                r == num % den,
                2 * r >= den,
                den > 0,
        ;
        q + 1
    } else {
        q
    }
}

/// How far apart the numbers are that 53 binary digits can hold, around `n`.
pub open spec fn spacing(n: nat) -> nat
    decreases n,
{
    if n < 0x20_0000_0000_0000 {
        1
    } else {
        2 * spacing(n / 2)
    }
}

/// The nearest number to `n` that 53 binary digits can hold.
pub open spec fn as_held(n: nat) -> int {
    nearest(n as int, spacing(n) as int) * spacing(n)
}

/// `num` over `den` with one figure after the point.
pub open spec fn tenths_text(num: nat, den: nat) -> Seq<char> {
    let tenths = nearest(10 * num as int, den as int) as nat;
    decimal_text(tenths / 10) + seq!['.'] + decimal_text(tenths % 10)
}

/// A count of bytes as a person says it. A count too great for 53 binary
/// digits is rounded to what they can hold first.
pub open spec fn total_text(bytes: nat) -> Seq<char> {
    if bytes < 1024 {
        decimal_text(bytes) + seq![' ', 'B']
    } else if bytes < 1048576 {
        tenths_text(bytes, 1024) + seq![' ', 'k', 'B']
    } else {
        tenths_text(as_held(bytes) as nat, 1048576) + seq![' ', 'M', 'B']
    }
}

fn gap(n: u64) -> (u: u128)
    ensures
        u == spacing(n as nat),
        1 <= u,
        u == 1 || u * 0x10_0000_0000_0000 <= n,
    decreases n,
{
    if n < 0x20_0000_0000_0000 {
        1
    } else {
        2 * gap(n / 2)
    }
}

fn held(n: u64) -> (h: u128)
    ensures
        h == as_held(n as nat),
        h <= 0x1_0000_0000_0000_1000,
{
    let u: u128 = gap(n);
    let q: u128 = round_div(n as u128, u);
    let ghost m = n as int / u as int;
    assert(m * u <= n) by (nonlinear_arith)
        requires
            m == n as int / u as int,
            u > 0,
    ;
    assert(q * u <= m * u + u) by (nonlinear_arith)
        requires
            q <= m + 1,
            u > 0,
    ;
    assert(q * u == nearest(n as int, u as int) * u);
    q * u
}

fn tenths(num: u128, den: u128) -> (s: String)
    requires
        num <= 0x1_0000_0000_0000_1000,
        1024 <= den <= 0x1_0000_0000,
    ensures
        s@ == tenths_text(num as nat, den as nat),
{
    let t: u128 = round_div(10 * num, den);
    let ghost m = (10 * num) / den as int;
    assert(m * 1024 <= 10 * num) by (nonlinear_arith)
        requires
            m == (10 * num) / den as int,
            den >= 1024,
            num >= 0,
    ;
    assert(t <= m + 1);
    let mut s = decimal((t / 10) as u64);
    s.append(".");
    s.append(decimal((t % 10) as u64).as_str());
    proof {
        reveal_strlit(".");
        assert("."@ =~= seq!['.']);
    }
    s
}

/// A count of bytes as a person says it.
pub fn total(bytes: u64) -> (s: String)
    ensures
        s@ == total_text(bytes as nat),
{
    proof {
        reveal_strlit(" B");
        reveal_strlit(" kB");
        reveal_strlit(" MB");
        assert(" B"@ =~= seq![' ', 'B']);
        assert(" kB"@ =~= seq![' ', 'k', 'B']);
        assert(" MB"@ =~= seq![' ', 'M', 'B']);
    }
    if bytes < 1024 {
        decimal(bytes).concat(" B")
    } else if bytes < 1024 * 1024 {
        tenths(bytes as u128, 1024).concat(" kB")
    } else {
        tenths(held(bytes), 1048576).concat(" MB")
    }
}

// ---------------------------------------------------------------------
// The clock
// ---------------------------------------------------------------------
/// A number of at least two figures.
pub open spec fn two_figures(n: nat) -> Seq<char> {
    if n < 10 {
        seq!['0', digit(n)]
    } else {
        decimal_text(n)
    }
}

fn padded(n: u64) -> (s: String)
    ensures
        s@ == two_figures(n as nat),
{
    if n < 10 {
        proof {
            reveal_strlit("0");
        }
        let s = "0".to_string().concat(decimal(n).as_str());
        assert(s@ =~= two_figures(n as nat));
        s
    } else {
        decimal(n)
    }
}

/// A time in minutes and seconds.
pub open spec fn clock_text(secs: nat) -> Seq<char> {
    two_figures(secs / 60) + seq![':'] + two_figures(secs % 60)
}

/// A time in minutes and seconds.
pub fn fmt_time(secs: u64) -> (s: String)
    ensures
        s@ == clock_text(secs as nat),
{
    proof {
        reveal_strlit(":");
        assert(":"@ =~= seq![':']);
    }
    padded(secs / 60).concat(":").concat(padded(secs % 60).as_str())
}

// ---------------------------------------------------------------------
// The settings file
// ---------------------------------------------------------------------
/// White space, as Unicode has it.
pub open spec fn white(c: char) -> bool {
    let u = c as u32;
    ||| 9 <= u <= 13
    ||| u == 0x20
    ||| u == 0x85
    ||| u == 0xA0
    ||| u == 0x1680
    ||| 0x2000 <= u <= 0x200A
    ||| u == 0x2028
    ||| u == 0x2029
    ||| u == 0x202F
    ||| u == 0x205F
    ||| u == 0x3000
}

/// Whether a character is white space.
pub fn is_white(c: char) -> (b: bool)
    ensures
        b == white(c),
{
    let u: u32 = c as u32;
    (9 <= u && u <= 13) || u == 0x20 || u == 0x85 || u == 0xA0 || u == 0x1680 || (0x2000 <= u && u
        <= 0x200A) || u == 0x2028 || u == 0x2029 || u == 0x202F || u == 0x205F || u == 0x3000
}

/// A text without the white space at its start.
pub open spec fn trim_start(t: Seq<char>) -> Seq<char>
    decreases t.len(),
{
    if t.len() > 0 && white(t.first()) {
        trim_start(t.drop_first())
    } else {
        t
    }
}

/// A text without the white space at its end.
pub open spec fn trim_end(t: Seq<char>) -> Seq<char>
    decreases t.len(),
{
    if t.len() > 0 && white(t.last()) {
        trim_end(t.drop_last())
    } else {
        t
    }
}

/// A text without the white space around it.
pub open spec fn trimmed(t: Seq<char>) -> Seq<char> {
    trim_end(trim_start(t))
}

/// How long the first line of a text is.
pub open spec fn line_len(t: Seq<char>) -> nat
    decreases t.len(),
{
    if t.len() == 0 || t.first() == '\n' {
        0
    } else {
        1 + line_len(t.drop_first())
    }
}

proof fn lemma_line_len(t: Seq<char>)
    ensures
        line_len(t) <= t.len(),
    decreases t.len(),
{
    if t.len() > 0 && t.first() != '\n' {
        lemma_line_len(t.drop_first());
    }
}

/// Whether a line says something: it is not empty and not a remark.
pub open spec fn says_something(line: Seq<char>) -> bool {
    line.len() > 0 && line[0] != '#'
}

/// The first line of a settings file that says something, without the white
/// space around it, or nothing.
pub open spec fn setting(t: Seq<char>) -> Seq<char>
    decreases t.len(),
    via setting_decreases
{
    let line = trimmed(t.take(line_len(t) as int));
    if says_something(line) {
        line
    } else if line_len(t) < t.len() {
        setting(t.skip(line_len(t) as int + 1))
    } else {
        Seq::empty()
    }
}

#[via_fn]
proof fn setting_decreases(t: Seq<char>) {
    lemma_line_len(t);
}

pub(crate) fn chars_of(text: &str) -> (chars: Vec<char>)
    ensures
        chars@ == text@,
{
    let mut chars: Vec<char> = Vec::new();
    for c in it: text.chars()
        invariant
            it.seq() == text@,
            chars@ == text@.take(it.index() as int),
    {
        chars.push(c);
        assert(chars@ =~= text@.take(it.index() + 1));
    }
    assert(text@.take(text@.len() as int) == text@);
    chars
}

/// The relay named in the settings file, one line of `host:port`, or
/// nothing.
pub fn config_server(text: &str) -> (server: String)
    ensures
        server@ == setting(text@),
{
    let chars = chars_of(text);
    let mut from: usize = 0;
    assert(text@.skip(0) == text@);
    loop
        invariant
            chars@ == text@,
            from <= chars@.len(),
            setting(text@.skip(from as int)) == setting(text@),
        decreases chars@.len() - from,
    {
        let ghost rest = text@.skip(from as int);
        // The end of the line.
        let mut end: usize = from;
        while end < chars.len() && chars[end] != '\n'
            invariant
                chars@ == text@,
                from <= end <= chars@.len(),
                rest == text@.skip(from as int),
                line_len(rest) == end - from + line_len(text@.skip(end as int)),
            decreases chars@.len() - end,
        {
            assert(text@.skip(end as int).drop_first() == text@.skip(end + 1));
            end = end + 1;
        }
        assert(line_len(text@.skip(end as int)) == 0);
        assert(rest.take(line_len(rest) as int) == text@.subrange(from as int, end as int));
        // The line without the white space around it.
        let mut a: usize = from;
        while a < end && is_white(chars[a])
            invariant
                chars@ == text@,
                from <= a <= end <= chars@.len(),
                trim_start(text@.subrange(from as int, end as int)) == trim_start(
                    text@.subrange(a as int, end as int),
                ),
            decreases end - a,
        {
            assert(text@.subrange(a as int, end as int).drop_first() == text@.subrange(
                a + 1,
                end as int,
            ));
            a = a + 1;
        }
        let mut b: usize = end;
        while a < b && is_white(chars[b - 1])
            invariant
                chars@ == text@,
                a <= b <= end <= chars@.len(),
                trim_end(text@.subrange(a as int, end as int)) == trim_end(
                    text@.subrange(a as int, b as int),
                ),
            decreases b,
        {
            assert(text@.subrange(a as int, b as int).drop_last() == text@.subrange(
                a as int,
                b - 1,
            ));
            b = b - 1;
        }
        let ghost line = text@.subrange(a as int, b as int);
        assert(trimmed(rest.take(line_len(rest) as int)) == line);
        if a < b && chars[a] != '#' {
            return text.substring_char(a, b).to_string();
        }
        if end == chars.len() {
            return String::new();
        }
        assert(rest.skip(line_len(rest) as int + 1) == text@.skip(end + 1));
        from = end + 1;
    }
}

proof fn lemma_trim_start(t: Seq<char>)
    ensures
        trim_start(t).len() > 0 ==> !white(trim_start(t).first()),
        forall|c: char| trim_start(t).contains(c) ==> t.contains(c),
    decreases t.len(),
{
    if t.len() > 0 && white(t.first()) {
        let rest = t.drop_first();
        lemma_trim_start(rest);
        assert forall|c: char| rest.contains(c) implies t.contains(c) by {
            let k = choose|k: int| 0 <= k < rest.len() && rest[k] == c;
            assert(t[k + 1] == c);
        }
    }
}

proof fn lemma_trim_end(t: Seq<char>)
    ensures
        trim_end(t).len() > 0 ==> !white(trim_end(t).last()) && trim_end(t).first() == t.first(),
        forall|c: char| trim_end(t).contains(c) ==> t.contains(c),
    decreases t.len(),
{
    if t.len() > 0 && white(t.last()) {
        let rest = t.drop_last();
        lemma_trim_end(rest);
        assert forall|c: char| rest.contains(c) implies t.contains(c) by {
            let k = choose|k: int| 0 <= k < rest.len() && rest[k] == c;
            assert(t[k] == c);
        }
    }
}

proof fn lemma_line_is_one_line(t: Seq<char>)
    ensures
        line_len(t) <= t.len(),
        !t.take(line_len(t) as int).contains('\n'),
    decreases t.len(),
{
    if t.len() > 0 && t.first() != '\n' {
        let rest = t.drop_first();
        lemma_line_is_one_line(rest);
        let line = t.take(line_len(t) as int);
        assert forall|k: int| 0 <= k < line.len() implies line[k] != '\n' by {
            if k > 0 {
                assert(rest.take(line_len(rest) as int)[k - 1] == line[k]);
                assert(rest.take(line_len(rest) as int).contains(line[k]));
            }
        }
    }
}

/// A setting is one line that says something, with no white space around it.
pub proof fn law_a_setting_is_one_line(t: Seq<char>)
    ensures
        setting(t).len() > 0 ==> {
            &&& setting(t).first() != '#'
            &&& !white(setting(t).first())
            &&& !white(setting(t).last())
            &&& !setting(t).contains('\n')
        },
    decreases t.len(),
{
    let line = t.take(line_len(t) as int);
    lemma_line_is_one_line(t);
    lemma_trim_start(line);
    lemma_trim_end(trim_start(line));
    if !says_something(trimmed(line)) && line_len(t) < t.len() {
        law_a_setting_is_one_line(t.skip(line_len(t) as int + 1));
    }
}

/// The ten figures are the ten figures.
pub proof fn law_the_ten_figures(d: nat)
    requires
        d < 10,
    ensures
        digit(d) == "0123456789"@[d as int],
{
    reveal_strlit("0123456789");
}

proof fn lemma_nearest(num: int, den: int)
    requires
        num >= 0,
        den > 0,
    ensures
        nearest(num, den) >= 0,
        -den <= 2 * (nearest(num, den) * den - num) <= den,
        2 * (nearest(num, den) * den - num) == den || 2 * (nearest(num, den) * den - num) == -den
            ==> nearest(num, den) % 2 == 0,
{
    let q = num / den;
    let r = num % den;
    assert(num == q * den + r && 0 <= r < den && q >= 0) by (nonlinear_arith)
        requires
            num >= 0,
            den > 0,
            q == num / den,
            r == num % den,
    ;
    assert((q + 1) * den == q * den + den) by (nonlinear_arith);
}

/// A number of tenths as it is said.
pub open spec fn said(tenths: nat, unit: Seq<char>) -> Seq<char> {
    decimal_text(tenths / 10) + seq!['.', digit(tenths % 10)] + unit
}

/// A total is said in bytes below a thousand and twenty-four, and otherwise in
/// the tenth of a kilobyte or of a megabyte that it is nearest to. Halfway
/// between two it is the even one.
pub proof fn law_a_total_is_the_nearest_tenth(bytes: nat)
    ensures
        bytes < 1024 ==> total_text(bytes) == decimal_text(bytes) + " B"@,
        1024 <= bytes < 1048576 ==> exists|t: nat|
            {
                &&& total_text(bytes) == #[trigger] said(t, " kB"@)
                &&& -512 <= 1024 * t - 10 * bytes <= 512
                &&& 1024 * t - 10 * bytes == 512 || 1024 * t - 10 * bytes == -512 ==> t % 2 == 0
            },
        1048576 <= bytes ==> exists|t: nat|
            {
                let off = 1048576 * t - 10 * as_held(bytes);
                &&& total_text(bytes) == #[trigger] said(t, " MB"@)
                &&& -524288 <= off <= 524288
                &&& off == 524288 || off == -524288 ==> t % 2 == 0
            },
{
    reveal_strlit(" B");
    reveal_strlit(" kB");
    reveal_strlit(" MB");
    if bytes < 1024 {
        assert(total_text(bytes) =~= decimal_text(bytes) + " B"@);
    } else if bytes < 1048576 {
        lemma_nearest(10 * bytes as int, 1024);
        let t = nearest(10 * bytes as int, 1024) as nat;
        assert(total_text(bytes) =~= said(t, " kB"@));
    } else {
        law_a_total_is_held_as_near_as_can_be(bytes);
        let h = as_held(bytes);
        lemma_nearest(10 * h, 1048576);
        let t = nearest(10 * h, 1048576) as nat;
        assert(total_text(bytes) =~= said(t, " MB"@));
    }
}

/// Up to 53 binary digits a total is held as it is. A greater one is held as
/// the nearest number of 53 binary digits and noughts, and halfway between two
/// as the even one.
pub proof fn law_a_total_is_held_as_near_as_can_be(n: nat)
    ensures
        n < 0x20_0000_0000_0000 ==> as_held(n) == n,
        as_held(n) >= 0,
        n >= 0x20_0000_0000_0000 ==> {
            &&& 0x10_0000_0000_0000 * spacing(n) <= n < 0x20_0000_0000_0000 * spacing(n)
            &&& as_held(n) % spacing(n) as int == 0
            &&& -spacing(n) <= 2 * (as_held(n) - n) <= spacing(n)
            &&& 2 * (as_held(n) - n) == spacing(n) || 2 * (as_held(n) - n) == -spacing(n) ==> (
            as_held(n) / spacing(n) as int) % 2 == 0
        },
        spacing(n) == 1 || spacing(n) == 2 * spacing(n / 2),
{
    lemma_spacing(n);
    lemma_nearest(n as int, spacing(n) as int);
    let q = nearest(n as int, spacing(n) as int);
    let u = spacing(n) as int;
    assert(q * u >= 0) by (nonlinear_arith)
        requires
            q >= 0,
            u > 0,
    ;
    assert((q * u) % u == 0 && (q * u) / u == q) by (nonlinear_arith)
        requires
            u > 0,
    ;
}

proof fn lemma_spacing(n: nat)
    ensures
        spacing(n) >= 1,
        n < 0x20_0000_0000_0000 ==> spacing(n) == 1,
        n < 0x20_0000_0000_0000 * spacing(n),
        n >= 0x20_0000_0000_0000 ==> 0x10_0000_0000_0000 * spacing(n) <= n,
    decreases n,
{
    if n >= 0x20_0000_0000_0000 {
        lemma_spacing(n / 2);
    }
}

/// A clock shows minutes and seconds, each in two figures at least: sixty
/// seconds to the minute, and never sixty or more of them beside it.
pub proof fn law_the_clock_counts_in_minutes_and_seconds(secs: nat)
    ensures
        exists|m: Seq<char>, s: Seq<char>|
            #![trigger crate::args::value_of(m), crate::args::value_of(s)]
            {
                &&& clock_text(secs) == m + ":"@ + s
                &&& crate::args::all_figures(m) && crate::args::all_figures(s)
                &&& secs == 60 * crate::args::value_of(m) + crate::args::value_of(s)
                &&& crate::args::value_of(s) < 60
                &&& s.len() == 2
                &&& m.len() >= 2
                &&& m.len() > 2 ==> m[0] != '0'
            },
{
    reveal_strlit(":");
    let m = two_figures(secs / 60);
    let s = two_figures(secs % 60);
    lemma_two_figures(secs / 60);
    lemma_two_figures(secs % 60);
    assert(clock_text(secs) =~= m + ":"@ + s);
    assert(crate::args::value_of(m) == secs / 60 && crate::args::value_of(s) == secs % 60);
}

proof fn lemma_two_figures(n: nat)
    ensures
        crate::args::all_figures(two_figures(n)),
        crate::args::value_of(two_figures(n)) == n,
        two_figures(n).len() >= 2,
        n < 100 ==> two_figures(n).len() == 2,
        two_figures(n).len() > 2 ==> two_figures(n)[0] != '0',
{
    crate::args::law_figures_stand_for_their_number(n);
    let t = two_figures(n);
    if n < 10 {
        reveal_with_fuel(crate::args::value_of, 3);
        assert(t.drop_last() == seq!['0']);
        assert(t.drop_last().drop_last() == Seq::<char>::empty());
    } else {
        reveal_with_fuel(decimal_text, 3);
    }
}

/// What is trimmed off a text is white space, at its ends and nowhere else,
/// and all of it.
pub proof fn law_only_white_space_is_trimmed(t: Seq<char>)
    ensures
        exists|a: int, b: int|
            {
                &&& 0 <= a <= b <= t.len()
                &&& trimmed(t) == #[trigger] t.subrange(a, b)
                &&& forall|i: int| 0 <= i < a ==> white(#[trigger] t[i])
                &&& forall|i: int| b <= i < t.len() ==> white(#[trigger] t[i])
            },
        trimmed(t).len() > 0 ==> !white(trimmed(t).first()) && !white(trimmed(t).last()),
{
    let u = trim_start(t);
    lemma_trim_start(t);
    lemma_trim_end(u);
    lemma_start_cut(t);
    lemma_end_cut(u);
    let a = t.len() - u.len();
    let b = a + trim_end(u).len();
    assert(trimmed(t) =~= t.subrange(a, b));
    assert forall|i: int| b <= i < t.len() implies white(#[trigger] t[i]) by {
        assert(u[i - a] == t[i]);
    }
}

proof fn lemma_start_cut(t: Seq<char>)
    ensures
        trim_start(t).len() <= t.len(),
        trim_start(t) == t.skip(t.len() - trim_start(t).len()),
        forall|i: int| 0 <= i < t.len() - trim_start(t).len() ==> white(#[trigger] t[i]),
    decreases t.len(),
{
    if t.len() > 0 && white(t.first()) {
        let rest = t.drop_first();
        lemma_start_cut(rest);
        assert(rest.skip(rest.len() - trim_start(t).len()) == t.skip(
            t.len() - trim_start(t).len(),
        ));
        assert forall|i: int| 0 <= i < t.len() - trim_start(t).len() implies white(
            #[trigger] t[i],
        ) by {
            if i > 0 {
                assert(rest[i - 1] == t[i]);
            }
        }
    } else {
        assert(t.skip(0) == t);
    }
}

proof fn lemma_end_cut(t: Seq<char>)
    ensures
        trim_end(t).len() <= t.len(),
        trim_end(t) == t.take(trim_end(t).len() as int),
        forall|i: int| trim_end(t).len() <= i < t.len() ==> white(#[trigger] t[i]),
    decreases t.len(),
{
    if t.len() > 0 && white(t.last()) {
        let rest = t.drop_last();
        lemma_end_cut(rest);
        assert(rest.take(trim_end(t).len() as int) == t.take(trim_end(t).len() as int));
        assert forall|i: int| trim_end(t).len() <= i < t.len() implies white(#[trigger] t[i]) by {
            if i < rest.len() {
                assert(rest[i] == t[i]);
            }
        }
    } else {
        assert(t.take(t.len() as int) == t);
    }
}

/// The setting is the first line that says something: a line that does is the
/// setting, whatever comes after it, and with one that does not it is the
/// setting of what comes after.
pub proof fn law_the_first_line_that_says_something(line: Seq<char>, rest: Seq<char>)
    requires
        !line.contains('\n'),
    ensures
        ({
            let says = trimmed(line).len() > 0 && trimmed(line)[0] != '#';
            &&& says ==> setting(line + seq!['\n'] + rest) == trimmed(line) && setting(line)
                == trimmed(line)
            &&& !says ==> setting(line + seq!['\n'] + rest) == setting(rest) && setting(line).len()
                == 0
        }),
{
    let t = line + seq!['\n'] + rest;
    lemma_line_ends(line, seq!['\n'] + rest);
    lemma_line_ends(line, Seq::empty());
    assert(line + (seq!['\n'] + rest) == t);
    assert(line + Seq::empty() == line);
    assert(t.take(line.len() as int) == line);
    assert(line.take(line.len() as int) == line);
    assert(t.skip(line.len() as int + 1) == rest);
}

proof fn lemma_line_ends(line: Seq<char>, rest: Seq<char>)
    requires
        !line.contains('\n'),
        rest.len() > 0 ==> rest[0] == '\n',
    ensures
        line_len(line + rest) == line.len(),
    decreases line.len(),
{
    if line.len() > 0 {
        let more = line.drop_first();
        assert(line.contains(line[0]));
        if more.contains('\n') {
            let k = more.index_of('\n');
            assert(line[k + 1] == '\n');
        }
        lemma_line_ends(more, rest);
        assert((line + rest).drop_first() == more + rest);
    } else {
        assert(line + rest == rest);
    }
}

} // verus!
