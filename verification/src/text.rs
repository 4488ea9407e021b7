//! Verified helpers on strings, stated over the characters of a string.

use vstd::prelude::*;

verus! {

/// `String::push` appends one character.
pub assume_specification[ String::push ](s: &mut String, c: char)
    ensures
        final(s)@ == old(s)@.push(c),
;

/// The characters of `s`, in order.
pub fn chars_of(s: &str) -> (r: Vec<char>)
    ensures
        r@ == s@,
{
    let mut out: Vec<char> = Vec::new();
    for c in it: s.chars()
        invariant
            it.seq() == s@,
            out@ == s@.take(it.index() as int),
    {
        out.push(c);
    }
    assert(s@.take(s@.len() as int) == s@);
    out
}

/// The string made of the given characters.
pub fn string_of(chars: &Vec<char>) -> (r: String)
    ensures
        r@ == chars@,
{
    let mut out = String::new();
    for i in 0..chars.len()
        invariant
            out@ == chars@.take(i as int),
    {
        out.push(chars[i]);
    }
    assert(chars@.take(chars@.len() as int) == chars@);
    out
}

/// Whether two strings hold the same characters.
pub fn same(a: &str, b: &str) -> (r: bool)
    ensures
        r == (a@ == b@),
{
    a.to_owned() == b.to_owned()
}

/// Whether `name` is one of `list`.
pub fn is_one_of(name: &str, list: &[&str]) -> (r: bool)
    ensures
        r == exists|i: int| 0 <= i < list@.len() && #[trigger] list@[i]@ == name@,
{
    for i in 0..list.len()
        invariant
            forall|k: int| 0 <= k < i ==> #[trigger] list@[k]@ != name@,
    {
        if same(list[i], name) {
            return true;
        }
    }
    false
}

/// Whether `s` starts with `prefix`.
pub fn starts_with(s: &str, prefix: &str) -> (r: bool)
    ensures
        r == prefix@.is_prefix_of(s@),
{
    let chars = chars_of(s);
    let want = chars_of(prefix);
    if want.len() > chars.len() {
        return false;
    }
    for i in 0..want.len()
        invariant
            want@ == prefix@,
            chars@ == s@,
            want.len() <= chars.len(),
            forall|k: int| 0 <= k < i ==> want@[k] == chars@[k],
    {
        if want[i] != chars[i] {
            assert(prefix@[i as int] != s@.subrange(0, prefix@.len() as int)[i as int]);
            return false;
        }
    }
    assert(prefix@ =~= s@.subrange(0, prefix@.len() as int));
    true
}

/// What remains of `s` behind `prefix`, if `s` starts with it.
pub open spec fn stripped(s: Seq<char>, prefix: Seq<char>) -> Option<Seq<char>> {
    if prefix.is_prefix_of(s) {
        Some(s.skip(prefix.len() as int))
    } else {
        None
    }
}

/// Removes `prefix` from the front of `s`, if it stands there.
pub fn strip_front<'a>(s: &'a str, prefix: &str) -> (r: Option<&'a str>)
    ensures
        match r {
            Some(rest) => stripped(s@, prefix@) == Some(rest@),
            None => stripped(s@, prefix@) is None,
        },
{
    if starts_with(s, prefix) {
        let rest = s.substring_char(prefix.unicode_len(), s.unicode_len());
        assert(rest@ =~= s@.skip(prefix@.len() as int));
        Some(rest)
    } else {
        None
    }
}

/// Whether `s` ends with `suffix`.
pub fn ends_with(s: &str, suffix: &str) -> (r: bool)
    ensures
        r == suffix@.is_suffix_of(s@),
{
    let chars = chars_of(s);
    let want = chars_of(suffix);
    if want.len() > chars.len() {
        return false;
    }
    let shift: usize = chars.len() - want.len();
    for i in 0..want.len()
        invariant
            want@ == suffix@,
            chars@ == s@,
            shift == chars.len() - want.len(),
            forall|k: int| 0 <= k < i ==> want@[k] == chars@[k + shift],
    {
        if want[i] != chars[i + shift] {
            assert(suffix@[i as int] != s@.subrange(
                (s@.len() - suffix@.len()) as int,
                s@.len() as int,
            )[i as int]);
            return false;
        }
    }
    assert(suffix@ =~= s@.subrange((s@.len() - suffix@.len()) as int, s@.len() as int));
    true
}

/// Whether `part` occurs in `s` at position `at`.
pub open spec fn occurs_at(s: Seq<char>, part: Seq<char>, at: int) -> bool {
    0 <= at && at + part.len() <= s.len() && s.subrange(at, at + part.len()) == part
}

/// Whether `part` occurs anywhere in `s`.
pub open spec fn occurs(s: Seq<char>, part: Seq<char>) -> bool {
    exists|at: int| #[trigger] occurs_at(s, part, at)
}

/// Whether `part` occurs anywhere in `s`.
pub fn contains(s: &str, part: &str) -> (r: bool)
    ensures
        r == occurs(s@, part@),
{
    let chars = chars_of(s);
    let want = chars_of(part);
    if want.len() > chars.len() {
        return false;
    }
    let last: usize = chars.len() - want.len();
    let mut at: usize = 0;
    loop
        invariant
            chars@ == s@,
            want@ == part@,
            last == chars.len() - want.len(),
            at <= last,
            forall|k: int| 0 <= k < at ==> !#[trigger] occurs_at(s@, part@, k),
        decreases last - at,
    {
        let mut i: usize = 0;
        while i < want.len() && want[i] == chars[at + i]
            invariant
                chars@ == s@,
                want@ == part@,
                last == chars.len() - want.len(),
                at <= last,
                i <= want.len(),
                forall|k: int| 0 <= k < i ==> want@[k] == chars@[at + k],
            decreases want.len() - i,
        {
            i = i + 1;
        }
        if i == want.len() {
            assert(s@.subrange(at as int, at + part@.len()) =~= part@);
            assert(occurs_at(s@, part@, at as int));
            return true;
        }
        assert(!occurs_at(s@, part@, at as int)) by {
            assert(s@.subrange(at as int, at + part@.len())[i as int] == s@[at + i]);
        }
        if at == last {
            return false;
        }
        at = at + 1;
    }
}

/// Whether `at` is the last position of `c` in `s`.
pub open spec fn is_last_index(s: Seq<char>, c: char, at: int) -> bool {
    &&& 0 <= at < s.len()
    &&& s[at] == c
    &&& forall|k: int| at < k < s.len() ==> s[k] != c
}

/// The last position of `c` in `s`.
pub fn last_index(s: &str, c: char) -> (r: Option<usize>)
    ensures
        match r {
            Some(at) => is_last_index(s@, c, at as int),
            None => !s@.contains(c),
        },
{
    let chars = chars_of(s);
    let mut i: usize = chars.len();
    while i > 0
        invariant
            chars@ == s@,
            i <= chars.len(),
            forall|k: int| i <= k < chars.len() ==> s@[k] != c,
        decreases i,
    {
        i = i - 1;
        if chars[i] == c {
            return Some(i);
        }
    }
    None
}

/// Whether `at` is the first position of `c` in `s`.
pub open spec fn is_first_index(s: Seq<char>, c: char, at: int) -> bool {
    &&& 0 <= at < s.len()
    &&& s[at] == c
    &&& forall|k: int| 0 <= k < at ==> s[k] != c
}

/// The first position of `c` in `s`.
pub fn first_index(s: &str, c: char) -> (r: Option<usize>)
    ensures
        match r {
            Some(at) => is_first_index(s@, c, at as int),
            None => !s@.contains(c),
        },
{
    let chars = chars_of(s);
    for i in 0..chars.len()
        invariant
            chars@ == s@,
            forall|k: int| 0 <= k < i ==> s@[k] != c,
    {
        if chars[i] == c {
            return Some(i);
        }
    }
    None
}

/// `s` with every `from` turned into `to`.
pub open spec fn with_char_replaced(s: Seq<char>, from: char, to: char) -> Seq<char> {
    s.map_values(
        |c: char|
            if c == from {
                to
            } else {
                c
            },
    )
}

/// Replaces every `from` in `s` by `to`.
pub fn replace_char(s: &str, from: char, to: char) -> (r: String)
    ensures
        r@ == with_char_replaced(s@, from, to),
{
    let chars = chars_of(s);
    let mut out = String::new();
    for i in 0..chars.len()
        invariant
            chars@ == s@,
            out@ == with_char_replaced(s@.take(i as int), from, to),
    {
        assert(s@.take(i + 1) == s@.take(i as int).push(s@[i as int]));
        if chars[i] == from {
            out.push(to);
        } else {
            out.push(chars[i]);
        }
    }
    assert(s@.take(s@.len() as int) == s@);
    out
}

/// The characters of each string of a list.
pub open spec fn views(list: Seq<String>) -> Seq<Seq<char>> {
    list.map_values(|s: String| s@)
}

/// The value of an optional text.
pub open spec fn text_view(text: Option<String>) -> Option<Seq<char>> {
    match text {
        Some(text) => Some(text@),
        None => None,
    }
}

/// The strings of `list`, one behind the other, with `sep` between them.
pub open spec fn joined(list: Seq<Seq<char>>, sep: Seq<char>) -> Seq<char>
    decreases list.len(),
{
    if list.len() == 0 {
        Seq::empty()
    } else if list.len() == 1 {
        list[0]
    } else {
        joined(list.drop_last(), sep) + sep + list.last()
    }
}

/// Joins the strings of `list` with `sep` between them.
pub fn join(list: &Vec<String>, sep: &str) -> (r: String)
    ensures
        r@ == joined(views(list@), sep@),
{
    let mut out = String::new();
    let ghost all = views(list@);
    for i in 0..list.len()
        invariant
            all == views(list@),
            out@ == joined(all.take(i as int), sep@),
    {
        let ghost now = all.take(i + 1);
        assert(now.drop_last() == all.take(i as int));
        assert(now.last() == list@[i as int]@);
        if i > 0 {
            out.append(sep);
        }
        out.append(list[i].as_str());
        proof {
            if i == 0 {
                assert(joined(now.drop_last(), sep@) == Seq::<char>::empty());
                assert(out@ == list@[0]@);
            }
        }
    }
    assert(all.take(all.len() as int) == all);
    out
}

/// Copies a list of strings.
pub fn copied(list: &Vec<String>) -> (r: Vec<String>)
    ensures
        views(r@) == views(list@),
{
    let mut out: Vec<String> = Vec::new();
    for i in 0..list.len()
        invariant
            views(out@) == views(list@).take(i as int),
    {
        let ghost before = out@;
        out.push(list[i].clone());
        assert(views(out@) =~= views(before).push(list@[i as int]@));
        assert(views(list@).take(i + 1) =~= views(list@).take(i as int).push(list@[i as int]@));
    }
    assert(views(list@).take(list@.len() as int) == views(list@));
    out
}

// ----------------------------------------------------------------------------
// Lines and white space
// ----------------------------------------------------------------------------

/// `s` without a carriage return at its end.
pub open spec fn without_return(s: Seq<char>) -> Seq<char> {
    if s.len() > 0 && s.last() == '\r' {
        s.drop_last()
    } else {
        s
    }
}

/// The lines of `s`: what stands before each line feed, without a carriage return right ahead
/// of it, and what stands behind the last.
pub open spec fn split_lines(s: Seq<char>) -> Seq<Seq<char>>
    decreases s.len(),
{
    if s.len() == 0 {
        seq![Seq::empty()]
    } else {
        let before = split_lines(s.drop_last());
        if s.last() == '\n' {
            before.drop_last().push(without_return(before.last())).push(Seq::empty())
        } else {
            before.drop_last().push(before.last().push(s.last()))
        }
    }
}

/// Whether a line is not empty.
pub open spec fn is_full() -> spec_fn(Seq<char>) -> bool {
    |line: Seq<char>| line.len() > 0
}

/// The lines of `s` that are not empty.
pub open spec fn full_lines(s: Seq<char>) -> Seq<Seq<char>> {
    split_lines(s).filter(is_full())
}

proof fn lemma_split_lines_len(s: Seq<char>)
    ensures
        split_lines(s).len() >= 1,
    decreases s.len(),
{
    if s.len() > 0 {
        lemma_split_lines_len(s.drop_last());
    }
}

/// Lists the lines of `s` that are not empty.
pub fn lines(s: &str) -> (r: Vec<String>)
    ensures
        views(r@) == full_lines(s@),
{
    let chars = chars_of(s);
    let mut out: Vec<String> = Vec::new();
    let mut current: Vec<char> = Vec::new();
    proof {
        assert(s@.take(0) =~= Seq::<char>::empty());
        assert(split_lines(s@.take(0)) =~= seq![Seq::<char>::empty()]);
        assert(split_lines(s@.take(0)).drop_last() =~= Seq::<Seq<char>>::empty());
        reveal(Seq::filter);
        assert(views(out@) =~= Seq::<Seq<char>>::empty());
    }
    for i in 0..chars.len()
        invariant
            chars@ == s@,
            current@ == split_lines(s@.take(i as int)).last(),
            views(out@) == split_lines(s@.take(i as int)).drop_last().filter(is_full()),
    {
        let ghost done = split_lines(s@.take(i as int));
        let ghost now = split_lines(s@.take(i + 1));
        proof {
            assert(s@.take(i + 1).drop_last() =~= s@.take(i as int));
            assert(s@.take(i + 1).last() == s@[i as int]);
            lemma_split_lines_len(s@.take(i as int));
        }
        if chars[i] == '\n' {
            if current.len() > 0 && current[current.len() - 1] == '\r' {
                let _ = current.pop();
            }
            proof {
                assert(current@ =~= without_return(done.last()));
                assert(now.drop_last() =~= done.drop_last().push(current@));
                lemma_filter_push(done.drop_last(), current@, is_full());
            }
            if current.len() > 0 {
                let ghost before = out@;
                let line = string_of(&current);
                out.push(line);
                assert(views(out@) =~= views(before).push(line@));
            }
            current = Vec::new();
            assert(now.last() =~= Seq::<char>::empty());
        } else {
            current.push(chars[i]);
            assert(now.drop_last() =~= done.drop_last());
        }
    }
    proof {
        assert(s@.take(s@.len() as int) =~= s@);
        let all = split_lines(s@);
        lemma_split_lines_len(s@);
        assert(all =~= all.drop_last().push(all.last()));
        lemma_filter_push(all.drop_last(), all.last(), is_full());
    }
    if current.len() > 0 {
        let ghost before = out@;
        let line = string_of(&current);
        out.push(line);
        assert(views(out@) =~= views(before).push(line@));
    }
    out
}

/// What a filter makes of one item more.
pub proof fn lemma_filter_push<A>(s: Seq<A>, a: A, keep: spec_fn(A) -> bool)
    ensures
        s.push(a).filter(keep) == if keep(a) {
            s.filter(keep).push(a)
        } else {
            s.filter(keep)
        },
{
    reveal(Seq::filter);
    assert(s.push(a).drop_last() =~= s);
}

/// `s` without the line breaks at its end.
pub open spec fn without_line_end(s: Seq<char>) -> Seq<char>
    decreases s.len(),
{
    if s.len() > 0 && (s.last() == '\r' || s.last() == '\n') {
        without_line_end(s.drop_last())
    } else {
        s
    }
}

/// Takes the line breaks off the end of `s`.
pub fn trim_line_end(s: &str) -> (r: &str)
    ensures
        r@ == without_line_end(s@),
{
    let chars = chars_of(s);
    let mut n: usize = chars.len();
    assert(s@.take(n as int) =~= s@);
    while n > 0 && (chars[n - 1] == '\r' || chars[n - 1] == '\n')
        invariant
            chars@ == s@,
            n <= s@.len(),
            without_line_end(s@) == without_line_end(s@.take(n as int)),
        decreases n,
    {
        assert(s@.take(n as int).drop_last() =~= s@.take(n - 1));
        n = n - 1;
    }
    let cut = s.substring_char(0, n);
    assert(cut@ =~= s@.take(n as int));
    cut
}

/// Whether `c` is white space.
pub open spec fn is_white(c: char) -> bool {
    let code = c as u32;
    ||| 0x09 <= code <= 0x0d
    ||| code == 0x20
    ||| code == 0x85
    ||| code == 0xa0
    ||| code == 0x1680
    ||| 0x2000 <= code <= 0x200a
    ||| code == 0x2028
    ||| code == 0x2029
    ||| code == 0x202f
    ||| code == 0x205f
    ||| code == 0x3000
}

/// Whether `c` is white space.
pub fn white(c: char) -> (r: bool)
    ensures
        r == is_white(c),
{
    let code: u32 = c as u32;
    (0x09 <= code && code <= 0x0d) || code == 0x20 || code == 0x85 || code == 0xa0 || code == 0x1680
        || (0x2000 <= code && code <= 0x200a) || code == 0x2028 || code == 0x2029 || code == 0x202f
        || code == 0x205f || code == 0x3000
}

/// `s` without the white space at its end.
pub open spec fn without_white_end(s: Seq<char>) -> Seq<char>
    decreases s.len(),
{
    if s.len() > 0 && is_white(s.last()) {
        without_white_end(s.drop_last())
    } else {
        s
    }
}

/// `s` without the white space at its front.
pub open spec fn without_white_front(s: Seq<char>) -> Seq<char>
    decreases s.len(),
{
    if s.len() > 0 && is_white(s[0]) {
        without_white_front(s.skip(1))
    } else {
        s
    }
}

/// `s` without the white space around it.
pub open spec fn trimmed(s: Seq<char>) -> Seq<char> {
    without_white_end(without_white_front(s))
}

/// Takes the white space off both ends of `s`.
pub fn trim(s: &str) -> (r: &str)
    ensures
        r@ == trimmed(s@),
{
    let chars = chars_of(s);
    let len: usize = chars.len();
    let mut from: usize = 0;
    assert(s@.skip(0) =~= s@);
    while from < len && white(chars[from])
        invariant
            chars@ == s@,
            len == s@.len(),
            from <= len,
            without_white_front(s@) == without_white_front(s@.skip(from as int)),
        decreases len - from,
    {
        assert(s@.skip(from as int).skip(1) =~= s@.skip(from + 1));
        from = from + 1;
    }
    let ghost rest = s@.skip(from as int);
    let mut to: usize = len;
    assert(rest.take(to - from) =~= rest);
    while to > from && white(chars[to - 1])
        invariant
            chars@ == s@,
            len == s@.len(),
            from <= to <= len,
            rest == s@.skip(from as int),
            without_white_end(rest) == without_white_end(rest.take(to - from)),
        decreases to,
    {
        assert(rest.take(to - from).drop_last() =~= rest.take(to - from - 1));
        to = to - 1;
    }
    let _ = s.unicode_len();
    let cut = s.substring_char(from, to);
    assert(cut@ =~= rest.take(to - from));
    cut
}

// ----------------------------------------------------------------------------
// The order of strings
// ----------------------------------------------------------------------------

/// Whether `a` comes before `b` in the order of strings, which goes by the first
/// character in which they differ.
pub open spec fn text_before(a: Seq<char>, b: Seq<char>) -> bool
    decreases a.len(),
{
    if b.len() == 0 {
        false
    } else if a.len() == 0 {
        true
    } else if a[0] != b[0] {
        a[0] < b[0]
    } else {
        text_before(a.skip(1), b.skip(1))
    }
}

/// Whether `a` comes before `b` in the order of strings.
pub fn before(a: &str, b: &str) -> (r: bool)
    ensures
        r == text_before(a@, b@),
{
    let left = chars_of(a);
    let right = chars_of(b);
    let mut i: usize = 0;
    assert(a@.skip(0) == a@ && b@.skip(0) == b@);
    loop
        invariant
            left@ == a@,
            right@ == b@,
            i <= left.len(),
            i <= right.len(),
            text_before(a@, b@) == text_before(a@.skip(i as int), b@.skip(i as int)),
        decreases left.len() - i,
    {
        if i == right.len() {
            return false;
        }
        if i == left.len() {
            return true;
        }
        if left[i] != right[i] {
            return left[i] < right[i];
        }
        assert(a@.skip(i as int).skip(1) == a@.skip(i + 1));
        assert(b@.skip(i as int).skip(1) == b@.skip(i + 1));
        i = i + 1;
    }
}

/// The order of strings is total: of two strings one comes first or they are equal.
pub proof fn lemma_text_total(a: Seq<char>, b: Seq<char>)
    ensures
        text_before(a, b) || text_before(b, a) || a == b,
        !(text_before(a, b) && text_before(b, a)),
        a == b ==> !text_before(a, b),
    decreases a.len(),
{
    if a.len() > 0 && b.len() > 0 && a[0] == b[0] {
        lemma_text_total(a.skip(1), b.skip(1));
        if a.skip(1) == b.skip(1) {
            assert(a == seq![a[0]] + a.skip(1));
            assert(b == seq![b[0]] + b.skip(1));
        }
    } else if a.len() == 0 && b.len() == 0 {
        assert(a == b);
    }
}

/// The order of strings is transitive.
pub proof fn lemma_text_transitive(a: Seq<char>, b: Seq<char>, c: Seq<char>)
    requires
        text_before(a, b),
        text_before(b, c),
    ensures
        text_before(a, c),
    decreases a.len(),
{
    if a.len() > 0 && b.len() > 0 && c.len() > 0 && a[0] == b[0] && b[0] == c[0] {
        lemma_text_transitive(a.skip(1), b.skip(1), c.skip(1));
    }
}

// ----------------------------------------------------------------------------
// Numbers in text
// ----------------------------------------------------------------------------

/// The character of a decimal digit.
pub open spec fn digit(d: nat) -> char {
    if d == 0 {
        '0'
    } else if d == 1 {
        '1'
    } else if d == 2 {
        '2'
    } else if d == 3 {
        '3'
    } else if d == 4 {
        '4'
    } else if d == 5 {
        '5'
    } else if d == 6 {
        '6'
    } else if d == 7 {
        '7'
    } else if d == 8 {
        '8'
    } else if d == 9 {
        '9'
    } else if d == 10 {
        'a'
    } else if d == 11 {
        'b'
    } else if d == 12 {
        'c'
    } else if d == 13 {
        'd'
    } else if d == 14 {
        'e'
    } else {
        'f'
    }
}

/// The character of a digit below sixteen.
pub fn digit_char(d: u32) -> (r: char)
    requires
        d < 16,
    ensures
        r == digit(d as nat),
{
    match d {
        0 => '0',
        1 => '1',
        2 => '2',
        3 => '3',
        4 => '4',
        5 => '5',
        6 => '6',
        7 => '7',
        8 => '8',
        9 => '9',
        10 => 'a',
        11 => 'b',
        12 => 'c',
        13 => 'd',
        14 => 'e',
        _ => 'f',
    }
}

/// `n` written in decimal.
pub open spec fn decimal(n: nat) -> Seq<char>
    decreases n,
{
    if n < 10 {
        seq![digit(n)]
    } else {
        decimal(n / 10).push(digit(n % 10))
    }
}

/// Writes `n` in decimal.
pub fn decimal_of(n: usize) -> (r: String)
    ensures
        r@ == decimal(n as nat),
    decreases n,
{
    if n < 10 {
        let mut out = String::new();
        out.push(digit_char(n as u32));
        assert(out@ == seq![digit(n as nat)]);
        out
    } else {
        let mut out = decimal_of(n / 10);
        out.push(digit_char((n % 10) as u32));
        out
    }
}

/// The number that a text of decimal digits is read as.
pub open spec fn read_decimal(text: Seq<char>) -> nat
    decreases text.len(),
{
    if text.len() == 0 {
        0
    } else {
        (read_decimal(text.drop_last()) * 10 + (text.last() as int - '0' as int)) as nat
    }
}

/// A number written in decimal reads back as itself: it is made of digits, and starts with a zero
/// only where it is zero.
pub proof fn law_decimals_read_back(n: nat)
    ensures
        read_decimal(decimal(n)) == n,
        decimal(n).len() > 0,
        forall|i: int| 0 <= i < decimal(n).len() ==> '0' <= #[trigger] decimal(n)[i] <= '9',
        decimal(n)[0] == '0' <==> n == 0,
    decreases n,
{
    reveal_with_fuel(read_decimal, 2);
    if n < 10 {
        assert(decimal(n).drop_last() =~= Seq::empty());
        assert(decimal(n).last() == digit(n));
    } else {
        law_decimals_read_back(n / 10);
        assert(decimal(n).drop_last() =~= decimal(n / 10));
        assert(decimal(n).last() == digit(n % 10));
        assert(decimal(n)[0] == decimal(n / 10)[0]);
        assert forall|i: int| 0 <= i < decimal(n).len() implies '0' <= #[trigger] decimal(n)[i]
            <= '9' by {
            if i < decimal(n / 10).len() {
                assert(decimal(n)[i] == decimal(n / 10)[i]);
            }
        }
    }
}

// ----------------------------------------------------------------------------
// Laws
// ----------------------------------------------------------------------------

/// Joined lists are joined parts: the separator stands between any two of them, and nowhere else.
pub proof fn law_joined_lists_are_joined_parts(
    a: Seq<Seq<char>>,
    b: Seq<Seq<char>>,
    one: Seq<char>,
    sep: Seq<char>,
)
    ensures
        joined(seq![one], sep) == one,
        a.len() > 0 && b.len() > 0 ==> joined(a + b, sep) == joined(a, sep) + sep + joined(b, sep),
    decreases b.len(),
{
    if a.len() > 0 && b.len() > 0 {
        assert((a + b).last() == b.last());
        assert((a + b).drop_last() =~= a + b.drop_last());
        if b.len() == 1 {
            assert(a + b.drop_last() =~= a);
            assert(b[0] == b.last());
        } else {
            law_joined_lists_are_joined_parts(a, b.drop_last(), one, sep);
            assert(joined(a + b, sep) =~= joined(a, sep) + sep + joined(b, sep));
        }
    }
}

proof fn lemma_white_end(s: Seq<char>) -> (n: int)
    ensures
        0 <= n <= s.len(),
        without_white_end(s) == s.take(n),
        n > 0 ==> !is_white(s[n - 1]),
        forall|k: int| n <= k < s.len() ==> is_white(#[trigger] s[k]),
    decreases s.len(),
{
    if s.len() > 0 && is_white(s.last()) {
        let n = lemma_white_end(s.drop_last());
        assert(s.drop_last().take(n) =~= s.take(n));
        assert forall|k: int| n <= k < s.len() implies is_white(#[trigger] s[k]) by {
            if k < s.len() - 1 {
                assert(s.drop_last()[k] == s[k]);
            }
        }
        n
    } else {
        assert(s.take(s.len() as int) =~= s);
        s.len() as int
    }
}

proof fn lemma_white_front(s: Seq<char>) -> (n: int)
    ensures
        0 <= n <= s.len(),
        without_white_front(s) == s.skip(n),
        n < s.len() ==> !is_white(s[n]),
        forall|k: int| 0 <= k < n ==> is_white(#[trigger] s[k]),
    decreases s.len(),
{
    if s.len() > 0 && is_white(s[0]) {
        let n = lemma_white_front(s.skip(1));
        assert(s.skip(1).skip(n) =~= s.skip(n + 1));
        assert forall|k: int| 0 <= k < n + 1 implies is_white(#[trigger] s[k]) by {
            if k > 0 {
                assert(s.skip(1)[k - 1] == s[k]);
            }
        }
        n + 1
    } else {
        assert(s.skip(0) =~= s);
        0
    }
}

/// Trimmed text is what stands between the first and the last character that is not white space,
/// as it was: nothing but white space is cut, and none is left at either end.
pub proof fn law_only_white_space_is_trimmed(s: Seq<char>) -> (range: (int, int))
    ensures
        0 <= range.0 <= range.1 <= s.len(),
        trimmed(s) == s.subrange(range.0, range.1),
        forall|k: int| 0 <= k < range.0 ==> is_white(#[trigger] s[k]),
        forall|k: int| range.1 <= k < s.len() ==> is_white(#[trigger] s[k]),
        range.0 < range.1 ==> !is_white(s[range.0]) && !is_white(s[range.1 - 1]),
{
    let from = lemma_white_front(s);
    let rest = s.skip(from);
    let n = lemma_white_end(rest);
    assert(rest.take(n) =~= s.subrange(from, from + n));
    assert forall|k: int| from + n <= k < s.len() implies is_white(#[trigger] s[k]) by {
        assert(rest[k - from] == s[k]);
    }
    if n > 0 {
        assert(rest[n - 1] == s[from + n - 1]);
    }
    (from, from + n)
}

/// Only line breaks are taken off the end of text, and all that stand there.
pub proof fn law_only_line_breaks_are_taken_off(s: Seq<char>) -> (n: int)
    ensures
        0 <= n <= s.len(),
        without_line_end(s) == s.take(n),
        n > 0 ==> s[n - 1] != '\r' && s[n - 1] != '\n',
        forall|k: int| n <= k < s.len() ==> #[trigger] s[k] == '\r' || s[k] == '\n',
    decreases s.len(),
{
    if s.len() > 0 && (s.last() == '\r' || s.last() == '\n') {
        let n = law_only_line_breaks_are_taken_off(s.drop_last());
        assert(s.drop_last().take(n) =~= s.take(n));
        assert forall|k: int| n <= k < s.len() implies #[trigger] s[k] == '\r' || s[k] == '\n' by {
            if k < s.len() - 1 {
                assert(s.drop_last()[k] == s[k]);
            }
        }
        n
    } else {
        assert(s.take(s.len() as int) =~= s);
        s.len() as int
    }
}

proof fn lemma_one_line(s: Seq<char>)
    requires
        !s.contains('\n'),
    ensures
        split_lines(s) == seq![s],
    decreases s.len(),
{
    if s.len() > 0 {
        let shorter = s.drop_last();
        assert forall|k: int| 0 <= k < shorter.len() implies shorter[k] != '\n' by {
            assert(s.contains(s[k]));
        }
        lemma_one_line(shorter);
        assert(s.contains(s.last()));
        assert(shorter.push(s.last()) =~= s);
        assert(split_lines(s) =~= seq![s]);
    } else {
        assert(s =~= Seq::empty());
    }
}

/// A line ends at a line feed, and a carriage return right ahead of that is no part of it. What
/// follows is split as if it stood alone, and text without a line feed is one line.
pub proof fn law_lines_end_at_line_feeds(line: Seq<char>, rest: Seq<char>)
    requires
        !line.contains('\n'),
    ensures
        split_lines(line) == seq![line],
        split_lines(line + seq!['\n'] + rest) == seq![
            if line.len() > 0 && line.last() == '\r' {
                line.drop_last()
            } else {
                line
            },
        ] + split_lines(rest),
    decreases rest.len(),
{
    lemma_one_line(line);
    let whole = line + seq!['\n'] + rest;
    if rest.len() == 0 {
        assert(whole.drop_last() =~= line);
        assert(whole.last() == '\n');
        assert(split_lines(line).drop_last() =~= Seq::empty());
        assert(split_lines(whole) =~= seq![without_return(line)] + split_lines(rest));
    } else {
        let less = rest.drop_last();
        law_lines_end_at_line_feeds(line, less);
        lemma_split_lines_len(less);
        assert(whole.drop_last() =~= line + seq!['\n'] + less);
        assert(whole.last() == rest.last());
        let first = seq![without_return(line)];
        let before = first + split_lines(less);
        assert(before.last() == split_lines(less).last());
        assert(before.drop_last() =~= first + split_lines(less).drop_last());
        assert(split_lines(whole) =~= first + split_lines(rest));
    }
}

/// Text is ordered by the first character in which it differs, and a text comes before its
/// continuations.
pub proof fn law_text_is_ordered_by_the_first_difference(
    front: Seq<char>,
    c: char,
    d: char,
    a: Seq<char>,
    b: Seq<char>,
)
    ensures
        c != d ==> (text_before(front + seq![c] + a, front + seq![d] + b) <==> c < d),
        text_before(front, front + seq![c] + a),
        !text_before(front + seq![c] + a, front),
    decreases front.len(),
{
    let x = front + seq![c] + a;
    let y = front + seq![d] + b;
    if front.len() > 0 {
        law_text_is_ordered_by_the_first_difference(front.skip(1), c, d, a, b);
        assert(x.skip(1) =~= front.skip(1) + seq![c] + a);
        assert(y.skip(1) =~= front.skip(1) + seq![d] + b);
    }
}

/// What stands between two texts occurs in all of it.
pub proof fn lemma_occurs_between(whole: Seq<char>, a: Seq<char>, part: Seq<char>, b: Seq<char>)
    requires
        whole == a + part + b,
    ensures
        occurs(whole, part),
{
    assert(whole.subrange(a.len() as int, (a.len() + part.len()) as int) =~= part);
    assert(occurs_at(whole, part, a.len() as int));
}

/// Replacing a character changes that character and nothing else, and none of it is left.
pub proof fn law_only_that_character_is_replaced(s: Seq<char>, from: char, to: char, i: int)
    requires
        0 <= i < s.len(),
    ensures
        with_char_replaced(s, from, to).len() == s.len(),
        s[i] != from ==> with_char_replaced(s, from, to)[i] == s[i],
        s[i] == from ==> with_char_replaced(s, from, to)[i] == to,
        from != to ==> !with_char_replaced(s, from, to).contains(from),
{
    let r = with_char_replaced(s, from, to);
    if from != to && r.contains(from) {
        let k = choose|k: int| 0 <= k < r.len() && r[k] == from;
        assert(s[k] == s[k]);
    }
}

} // verus!
