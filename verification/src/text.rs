//! Text helpers: the character-level steps the rest of the crate is built on.
use vstd::prelude::*;

verus! {

/// `String::push` of std: appends one character to the end of the string.
pub assume_specification[ String::push ](s: &mut String, c: char)
    ensures
        final(s)@ == old(s)@.push(c),
;

/// The views of a list of strings.
pub open spec fn views(list: Seq<String>) -> Seq<Seq<char>> {
    list.map_values(|s: String| s@)
}

/// The pieces of `list` with `sep` between neighbours.
pub open spec fn joined(list: Seq<Seq<char>>, sep: Seq<char>) -> Seq<char>
    decreases list.len(),
{
    if list.len() == 0 {
        Seq::empty()
    } else if list.len() == 1 {
        list[0]
    } else {
        joined(list.drop_last(), sep) + sep + list.last()
    }
}

/// Whether `needle` occurs in `hay` starting at `at`.
pub open spec fn occurs_at(hay: Seq<char>, needle: Seq<char>, at: int) -> bool {
    &&& 0 <= at
    &&& at + needle.len() <= hay.len()
    &&& hay.subrange(at, at + needle.len()) == needle
}

/// Whether `needle` occurs anywhere in `hay`.
pub open spec fn occurs(hay: Seq<char>, needle: Seq<char>) -> bool {
    exists|at: int| occurs_at(hay, needle, at)
}

/// The characters of `t`.
pub fn chars_of(t: &str) -> (r: Vec<char>)
    ensures
        r@ == t@,
{
    let mut out: Vec<char> = Vec::new();
    for c in it: t.chars()
        invariant
            it.seq() == t@,
            out@ == t@.take(it.index()),
    {
        out.push(c);
    }
    out
}

/// The text of the characters `from..to` of `cs`.
pub fn text_of(cs: &Vec<char>, from: usize, to: usize) -> (r: String)
    requires
        from <= to <= cs@.len(),
    ensures
        r@ == cs@.subrange(from as int, to as int),
{
    let mut out = String::new();
    let mut i: usize = from;
    while i < to
        invariant
            from <= i <= to <= cs@.len(),
            out@ == cs@.subrange(from as int, i as int),
        decreases to - i,
    {
        out.push(cs[i]);
        i += 1;
        assert(cs@.subrange(from as int, i as int) == cs@.subrange(from as int, i - 1).push(
            cs@[i - 1],
        ));
    }
    out
}

/// Whether two texts hold the same characters.
pub fn same(a: &str, b: &str) -> (r: bool)
    ensures
        r == (a@ == b@),
{
    a.to_owned() == b.to_owned()
}

/// Whether `needle` occurs in `hay` at position `at`.
pub fn matches_at(hay: &Vec<char>, needle: &Vec<char>, at: usize) -> (r: bool)
    requires
        at <= hay@.len(),
    ensures
        r == occurs_at(hay@, needle@, at as int),
{
    if needle.len() > hay.len() - at {
        return false;
    }
    let mut i: usize = 0;
    while i < needle.len()
        invariant
            at + needle@.len() <= hay.len(),
            i <= needle@.len(),
            forall|j: int| 0 <= j < i ==> hay@[at + j] == needle@[j],
        decreases needle.len() - i,
    {
        if hay[at + i] != needle[i] {
            assert(hay@.subrange(at as int, at + needle@.len())[i as int] != needle@[i as int]);
            return false;
        }
        i += 1;
    }
    assert(hay@.subrange(at as int, at + needle@.len()) == needle@);
    true
}

/// The first position at which `needle` occurs in `hay`.
pub fn find(hay: &Vec<char>, needle: &Vec<char>) -> (r: Option<usize>)
    ensures
        match r {
            Some(k) => occurs_at(hay@, needle@, k as int) && forall|j: int|
                0 <= j < k ==> !occurs_at(hay@, needle@, j),
            None => !occurs(hay@, needle@),
        },
{
    let mut i: usize = 0;
    loop
        invariant
            i <= hay@.len(),
            forall|j: int| 0 <= j < i ==> !occurs_at(hay@, needle@, j),
        decreases hay@.len() - i,
    {
        if matches_at(hay, needle, i) {
            return Some(i);
        }
        if i == hay.len() {
            assert forall|j: int| !occurs_at(hay@, needle@, j) by {}
            return None;
        }
        i += 1;
    }
}

/// Whether `t` starts with `p`.
pub fn starts_with(t: &str, p: &str) -> (r: bool)
    ensures
        r == p@.is_prefix_of(t@),
{
    let hay = chars_of(t);
    let needle = chars_of(p);
    let r = matches_at(&hay, &needle, 0);
    assert(p@.is_prefix_of(t@) <==> occurs_at(t@, p@, 0));
    r
}

/// `t` without its leading `p`, when it starts with `p`.
pub fn strip_prefix(t: &str, p: &str) -> (r: Option<String>)
    ensures
        match r {
            Some(rest) => t@ == p@ + rest@,
            None => !p@.is_prefix_of(t@),
        },
{
    if starts_with(t, p) {
        let cs = chars_of(t);
        let n = p.unicode_len();
        let rest = text_of(&cs, n, cs.len());
        assert(t@ == p@ + rest@);
        Some(rest)
    } else {
        None
    }
}

/// Whether `needle` occurs in `hay`.
pub fn contains(hay: &str, needle: &str) -> (r: bool)
    ensures
        r == occurs(hay@, needle@),
{
    find(&chars_of(hay), &chars_of(needle)).is_some()
}

/// `list` joined with `sep` between neighbours.
pub fn join(list: &Vec<String>, sep: &str) -> (r: String)
    ensures
        r@ == joined(views(list@), sep@),
{
    let mut out = String::new();
    let ghost all = views(list@);
    let mut i: usize = 0;
    while i < list.len()
        invariant
            i <= list@.len(),
            all == views(list@),
            out@ == joined(all.take(i as int), sep@),
        decreases list.len() - i,
    {
        if i > 0 {
            out.append(sep);
        }
        out.append(list[i].as_str());
        assert(all.take(i + 1).drop_last() == all.take(i as int));
        assert(all.take(i + 1).last() == list@[i as int]@);
        i += 1;
    }
    assert(all.take(i as int) == all);
    out
}

// ---- order ----

/// Whether `a` comes before `b` in the order of strings: by the first character
/// in which they differ, a proper prefix before what it begins.
pub open spec fn precedes(a: Seq<char>, b: Seq<char>) -> bool
    decreases a.len(),
{
    if b.len() == 0 {
        false
    } else if a.len() == 0 {
        true
    } else if a[0] != b[0] {
        a[0] < b[0]
    } else {
        precedes(a.drop_first(), b.drop_first())
    }
}

/// The order of strings is total: of two different ones, one comes first.
pub proof fn lemma_precedes_total(a: Seq<char>, b: Seq<char>)
    ensures
        a != b ==> precedes(a, b) || precedes(b, a),
    decreases a.len(),
{
    if a.len() == 0 && b.len() == 0 {
        assert(a == b);
    } else if a.len() > 0 && b.len() > 0 && a[0] == b[0] {
        lemma_precedes_total(a.drop_first(), b.drop_first());
        if a.drop_first() == b.drop_first() {
            assert(a == seq![a[0]] + a.drop_first());
            assert(b == seq![b[0]] + b.drop_first());
        }
    }
}

/// The order of strings is strict: no string comes before itself, and of two
/// strings at most one comes before the other.
pub proof fn lemma_precedes_strict(a: Seq<char>, b: Seq<char>)
    ensures
        !precedes(a, a),
        !(precedes(a, b) && precedes(b, a)),
    decreases a.len(),
{
    if a.len() > 0 {
        lemma_precedes_strict(
            a.drop_first(),
            if b.len() > 0 {
                b.drop_first()
            } else {
                b
            },
        );
    }
}

/// The order of strings is transitive.
pub proof fn lemma_precedes_transitive(a: Seq<char>, b: Seq<char>, c: Seq<char>)
    requires
        precedes(a, b),
        precedes(b, c),
    ensures
        precedes(a, c),
    decreases a.len(),
{
    if a.len() > 0 && b.len() > 0 && c.len() > 0 && a[0] == b[0] && b[0] == c[0] {
        lemma_precedes_transitive(a.drop_first(), b.drop_first(), c.drop_first());
    }
}

/// Whether `a` comes before `b` in the order of strings.
pub fn comes_before(a: &str, b: &str) -> (r: bool)
    ensures
        r == precedes(a@, b@),
{
    let x = chars_of(a);
    let y = chars_of(b);
    let mut i: usize = 0;
    assert(a@.skip(0) == a@ && b@.skip(0) == b@);
    loop
        invariant
            x@ == a@,
            y@ == b@,
            i <= x@.len(),
            i <= y@.len(),
            precedes(a@, b@) == precedes(a@.skip(i as int), b@.skip(i as int)),
        decreases x@.len() - i,
    {
        if i == y.len() {
            return false;
        }
        if i == x.len() {
            return true;
        }
        if x[i] != y[i] {
            return x[i] < y[i];
        }
        assert(a@.skip(i as int).drop_first() == a@.skip(i + 1));
        assert(b@.skip(i as int).drop_first() == b@.skip(i + 1));
        i += 1;
    }
}

// ---- numbers ----

/// The decimal digits.
pub const DIGITS: [char; 10] = ['0', '1', '2', '3', '4', '5', '6', '7', '8', '9'];

/// The decimal digits of `n`, without leading zeros.
pub open spec fn digits(n: nat) -> Seq<char>
    decreases n,
{
    if n < 10 {
        seq![DIGITS[n as int]]
    } else {
        digits(n / 10).push(DIGITS[(n % 10) as int])
    }
}

/// `n` in decimal.
pub open spec fn decimal(n: int) -> Seq<char> {
    if n < 0 {
        seq!['-'] + digits((-n) as nat)
    } else {
        digits(n as nat)
    }
}

/// The decimal digits of `n`, without leading zeros.
pub fn digits_of(n: u64) -> (r: String)
    ensures
        r@ == digits(n as nat),
    decreases n,
{
    let mut out = String::new();
    if n >= 10 {
        out = digits_of(n / 10);
    }
    out.push(DIGITS[(n % 10) as usize]);
    out
}

/// `n` in decimal.
pub fn decimal_of(n: i64) -> (r: String)
    ensures
        r@ == decimal(n as int),
{
    if n < 0 {
        let size: u64 = (-(n + 1)) as u64 + 1;
        let mut out = String::new();
        out.push('-');
        let digits = digits_of(size);
        out.append(digits.as_str());
        out
    } else {
        digits_of(n as u64)
    }
}

// ---- splitting ----

/// The stretches of `t` between the occurrences of `sep`: one more than there are
/// occurrences.
pub open spec fn split_by(t: Seq<char>, sep: char) -> Seq<Seq<char>>
    decreases t.len(),
{
    if t.len() == 0 {
        seq![Seq::empty()]
    } else {
        let before = split_by(t.drop_last(), sep);
        if t.last() == sep {
            before.push(Seq::empty())
        } else {
            before.drop_last().push(before.last().push(t.last()))
        }
    }
}

/// The stretches of `t` between the occurrences of `sep`.
pub fn split(t: &str, sep: char) -> (r: Vec<String>)
    ensures
        views(r@) == split_by(t@, sep),
{
    let mut out: Vec<String> = Vec::new();
    let mut cur = String::new();
    assert(t@.take(0) =~= Seq::<char>::empty());
    assert(views(out@).push(cur@) =~= split_by(t@.take(0), sep));
    for c in it: t.chars()
        invariant
            it.seq() == t@,
            views(out@).push(cur@) == split_by(t@.take(it.index()), sep),
    {
        let ghost i = it.index();
        let ghost was = views(out@).push(cur@);
        assert(t@.take(i + 1).drop_last() =~= t@.take(i));
        assert(t@.take(i + 1).last() == c);
        if c == sep {
            out.push(cur);
            cur = String::new();
            assert(views(out@) =~= was);
            assert(cur@ =~= Seq::<char>::empty());
        } else {
            cur.push(c);
            assert(was.drop_last() =~= views(out@));
        }
    }
    assert(t@.take(t@.len() as int) =~= t@);
    let ghost was = views(out@).push(cur@);
    out.push(cur);
    assert(views(out@) =~= was);
    out
}

// ---- reading numbers ----

/// Whether `t` is made of decimal digits alone, at least one.
pub open spec fn all_digits(t: Seq<char>) -> bool {
    &&& t.len() > 0
    &&& forall|i: int| 0 <= i < t.len() ==> '0' <= #[trigger] t[i] <= '9'
}

/// The number that decimal digits stand for.
pub open spec fn number_of(t: Seq<char>) -> nat
    decreases t.len(),
{
    if t.len() == 0 {
        0
    } else {
        number_of(t.drop_last()) * 10 + (t.last() as nat - '0' as nat) as nat
    }
}

/// The number that `t` stands for, where it is made of digits and fits.
pub open spec fn number_in(t: Seq<char>, max: nat) -> Option<nat> {
    if all_digits(t) && number_of(t) <= max {
        Some(number_of(t))
    } else {
        None
    }
}

proof fn lemma_number_grows(t: Seq<char>, n: int)
    requires
        0 <= n <= t.len(),
    ensures
        number_of(t.take(n)) <= number_of(t),
    decreases t.len() - n,
{
    if n < t.len() {
        lemma_number_grows(t, n + 1);
        assert(t.take(n + 1).drop_last() =~= t.take(n));
    } else {
        assert(t.take(n) =~= t);
    }
}

/// The number that `t` stands for, where it is made of digits alone and at most `max`.
pub fn read_number(t: &str, max: u64) -> (r: Option<u64>)
    ensures
        match r {
            Some(n) => number_in(t@, max as nat) == Some(n as nat),
            None => number_in(t@, max as nat) is None,
        },
{
    let cs = chars_of(t);
    if cs.len() == 0 {
        return None;
    }
    let mut n: u64 = 0;
    let mut i: usize = 0;
    assert(t@.take(0) =~= Seq::<char>::empty());
    while i < cs.len()
        invariant
            i <= cs@.len(),
            cs@ == t@,
            cs@.len() > 0,
            n <= max,
            n == number_of(t@.take(i as int)),
            forall|j: int| 0 <= j < i ==> '0' <= #[trigger] t@[j] <= '9',
        decreases cs@.len() - i,
    {
        let c = cs[i];
        assert(t@[i as int] == c);
        if c < '0' || c > '9' {
            return None;
        }
        let d: u64 = (c as u32 - '0' as u32) as u64;
        assert(t@.take(i + 1).drop_last() =~= t@.take(i as int));
        assert(t@.take(i + 1).last() == c);
        assert(number_of(t@.take(i + 1)) == n * 10 + d);
        proof {
            lemma_number_grows(t@, i + 1);
        }
        if d > max || n > (max - d) / 10 {
            return None;
        }
        n = n * 10 + d;
        i += 1;
    }
    assert(t@.take(i as int) =~= t@);
    Some(n)
}

// ---- laws ----

/// Law: the digits of a number are digits, stand for it, and have no zero in front.
pub proof fn digits_stand_for_their_number(n: nat)
    ensures
        all_digits(digits(n)),
        number_of(digits(n)) == n,
        n > 0 ==> digits(n)[0] != '0',
    decreases n,
{
    assert forall|d: int| 0 <= d < 10 implies '0' <= #[trigger] DIGITS[d] <= '9' && DIGITS[d] as nat
        - '0' as nat == d && (d > 0 ==> DIGITS[d] != '0') by {}
    let t = digits(n);
    if n < 10 {
        assert(t.drop_last() =~= Seq::empty());
        assert(number_of(t.drop_last()) == 0);
        assert(t.last() == DIGITS[n as int]);
    } else {
        digits_stand_for_their_number(n / 10);
        assert(t.drop_last() =~= digits(n / 10));
        assert(t.last() == DIGITS[(n % 10) as int]);
        assert forall|i: int| 0 <= i < t.len() implies '0' <= #[trigger] t[i] <= '9' by {
            if i < t.len() - 1 {
                assert(t[i] == digits(n / 10)[i]);
            }
        }
        assert(t[0] == digits(n / 10)[0]);
    }
}

/// Law: joining puts the separator between neighbours and nowhere else: what two lists come to
/// is what each comes to, with one separator between.
pub proof fn joining_two_lists(a: Seq<Seq<char>>, b: Seq<Seq<char>>, sep: Seq<char>)
    requires
        a.len() > 0,
        b.len() > 0,
    ensures
        joined(a + b, sep) == joined(a, sep) + sep + joined(b, sep),
        a.len() == 1 ==> joined(a, sep) == a[0],
    decreases b.len(),
{
    let all = a + b;
    assert(all.last() == b.last());
    assert(all.drop_last() =~= a + b.drop_last());
    if b.len() == 1 {
        assert(a + b.drop_last() =~= a);
        assert(joined(b, sep) == b[0]);
    } else {
        joining_two_lists(a, b.drop_last(), sep);
        assert(joined(all, sep) =~= joined(a, sep) + sep + joined(b, sep));
    }
}

/// Law: splitting takes a text apart at every separator and loses nothing: no stretch holds
/// one, and the stretches with the separators between them are the text.
pub proof fn split_stretches_join(t: Seq<char>, sep: char)
    ensures
        split_by(t, sep).len() > 0,
        forall|i: int|
            0 <= i < split_by(t, sep).len() ==> !(#[trigger] split_by(t, sep)[i]).contains(sep),
        joined(split_by(t, sep), seq![sep]) == t,
    decreases t.len(),
{
    let pieces = split_by(t, sep);
    let mark = seq![sep];
    if t.len() > 0 {
        let front = t.drop_last();
        let before = split_by(front, sep);
        split_stretches_join(front, sep);
        if t.last() == sep {
            assert forall|i: int| 0 <= i < pieces.len() implies !(#[trigger] pieces[i]).contains(
                sep,
            ) by {
                if i < before.len() {
                    assert(pieces[i] == before[i]);
                }
            }
            assert(pieces =~= before + seq![Seq::empty()]);
            joining_two_lists(before, seq![Seq::empty()], mark);
            assert(joined(pieces, mark) =~= t);
        } else {
            let head = before.drop_last();
            let last = before.last().push(t.last());
            assert(before[before.len() - 1] == before.last());
            assert forall|i: int| 0 <= i < pieces.len() implies !(#[trigger] pieces[i]).contains(
                sep,
            ) by {
                if i < head.len() {
                    assert(pieces[i] == before[i]);
                } else {
                    assert(pieces[i] == last);
                    if last.contains(sep) {
                        let k = choose|k: int| 0 <= k < last.len() && last[k] == sep;
                        assert(before.last()[k] == sep);
                    }
                }
            }
            if head.len() == 0 {
                assert(before =~= seq![before.last()]);
                assert(pieces =~= seq![last]);
                assert(joined(pieces, mark) =~= t);
            } else {
                assert(before =~= head + seq![before.last()]);
                assert(pieces =~= head + seq![last]);
                joining_two_lists(head, seq![before.last()], mark);
                joining_two_lists(head, seq![last], mark);
                assert(joined(seq![last], mark) == last);
                assert(joined(seq![before.last()], mark) == before.last());
                assert(front =~= joined(head, mark) + mark + before.last());
                assert(front.push(t.last()) =~= t);
                assert(joined(pieces, mark) =~= front.push(t.last()));
            }
        }
    } else {
        assert(pieces =~= seq![Seq::<char>::empty()]);
        assert(joined(pieces, mark) =~= t);
    }
}

/// Whether a text is another with a stretch before it and a stretch behind it.
pub open spec fn stands_between(
    hay: Seq<char>,
    before: Seq<char>,
    needle: Seq<char>,
    behind: Seq<char>,
) -> bool {
    hay == before + needle + behind
}

/// Law: a text occurs in another exactly where the other is it with something, or nothing,
/// before and behind.
pub proof fn what_occurs_stands_between(hay: Seq<char>, needle: Seq<char>)
    ensures
        occurs(hay, needle) <==> exists|before: Seq<char>, behind: Seq<char>| #[trigger]
            stands_between(hay, before, needle, behind),
{
    if occurs(hay, needle) {
        let at = choose|at: int| occurs_at(hay, needle, at);
        let before = hay.take(at);
        let behind = hay.skip(at + needle.len());
        assert(before + hay.subrange(at, at + needle.len()) + behind =~= hay);
        assert(stands_between(hay, before, needle, behind));
    }
    if exists|before: Seq<char>, behind: Seq<char>| #[trigger]
        stands_between(hay, before, needle, behind) {
        let (before, behind) = choose|before: Seq<char>, behind: Seq<char>| #[trigger]
            stands_between(hay, before, needle, behind);
        let at = before.len() as int;
        assert(hay.subrange(at, at + needle.len()) =~= needle);
        assert(occurs_at(hay, needle, at));
    }
}

/// Law: of two texts that begin alike the one comes first that ends there, or whose next
/// character is the lesser.
pub proof fn order_is_that_of_the_first_difference(front: Seq<char>, a: Seq<char>, b: Seq<char>)
    requires
        a.len() > 0 && b.len() > 0 ==> a[0] != b[0],
    ensures
        precedes(front + a, front + b) <==> b.len() > 0 && (a.len() == 0 || a[0] < b[0]),
    decreases front.len(),
{
    if front.len() == 0 {
        assert(front + a =~= a);
        assert(front + b =~= b);
    } else {
        let rest = front.drop_first();
        order_is_that_of_the_first_difference(rest, a, b);
        assert((front + a).drop_first() =~= rest + a);
        assert((front + b).drop_first() =~= rest + b);
    }
}

/// Law: a zero in front of digits does not change their number, and what is made of digits is
/// made of the ten of them alone.
pub proof fn zeros_in_front_count_for_nothing(t: Seq<char>)
    ensures
        number_of(seq!['0'] + t) == number_of(t),
        all_digits(t) <==> t.len() > 0 && forall|i: int|
            0 <= i < t.len() ==> exists|d: int| 0 <= d < 10 && #[trigger] DIGITS[d] == #[trigger] t[i],
        all_digits(t) ==> all_digits(seq!['0'] + t),
    decreases t.len(),
{
    let long = seq!['0'] + t;
    if t.len() == 0 {
        assert(long.drop_last() =~= Seq::empty());
        assert(number_of(long.drop_last()) == 0);
    } else {
        zeros_in_front_count_for_nothing(t.drop_last());
        assert(long.drop_last() =~= seq!['0'] + t.drop_last());
    }
    assert forall|i: int| 0 <= i < t.len() && '0' <= #[trigger] t[i] <= '9' implies exists|d: int|
        0 <= d < 10 && #[trigger] DIGITS[d] == t[i] by {
        assert(DIGITS[t[i] as int - '0' as int] == t[i]);
    }
    assert forall|d: int| 0 <= d < 10 implies '0' <= #[trigger] DIGITS[d] <= '9' by {}
    if all_digits(t) {
        assert forall|i: int| 0 <= i < long.len() implies '0' <= #[trigger] long[i] <= '9' by {
            if i > 0 {
                assert(long[i] == t[i - 1]);
            }
        }
    }
}

} // verus!
