//! The text side of project search: normalising names, descriptions and
//! queries, splitting them into words, and the whole-number features of a
//! match (how many query words a project's text contains, whether it
//! contains the whole query, whether the name is the query). Scores are
//! built from these features outside this library.

use vstd::prelude::*;
use crate::model::ProjectContract;
use crate::text::{chars_of, is_white_space, owned, string_of, white_space};

verus! {

/// ASCII letters and digits.
pub open spec fn is_ascii_alnum(c: char) -> bool {
    ('a' <= c && c <= 'z') || ('A' <= c && c <= 'Z') || ('0' <= c && c <= '9')
}

/// A character after lower-casing ASCII letters and turning every other
/// character that is not an ASCII letter or digit into a space.
pub open spec fn fold_char(c: char) -> char {
    if 'A' <= c && c <= 'Z' {
        ((c as u32) + 32) as char
    } else if is_ascii_alnum(c) {
        c
    } else {
        ' '
    }
}

pub open spec fn fold(s: Seq<char>) -> Seq<char> {
    s.map_values(|c: char| fold_char(c))
}

/// The words of `s`: its maximal runs of characters that are not white
/// space, in order (`str::split_whitespace`).
pub open spec fn words(s: Seq<char>) -> Seq<Seq<char>>
    decreases s.len(),
{
    if s.len() == 0 {
        seq![]
    } else {
        let w = words(s.drop_last());
        let c = s.last();
        if is_white_space(c) {
            w
        } else if s.len() >= 2 && !is_white_space(s[s.len() - 2]) {
            w.update(w.len() - 1, w.last().push(c))
        } else {
            w.push(seq![c])
        }
    }
}

/// Words joined by single spaces.
pub open spec fn join_words(ws: Seq<Seq<char>>) -> Seq<char>
    decreases ws.len(),
{
    if ws.len() == 0 {
        seq![]
    } else if ws.len() == 1 {
        ws[0]
    } else {
        join_words(ws.drop_last()) + seq![' '] + ws.last()
    }
}

/// The normal form of a text for matching: ASCII letters lower-cased,
/// every other non-alphanumeric character read as a space, and the
/// resulting words joined by single spaces.
pub open spec fn normal_form(s: Seq<char>) -> Seq<char> {
    join_words(words(fold(s)))
}

proof fn lemma_join_extend_last(ws: Seq<Seq<char>>, c: char)
    requires
        ws.len() > 0,
    ensures
        join_words(ws.update(ws.len() - 1, ws.last().push(c))) == join_words(ws).push(c),
{
    let ws2 = ws.update(ws.len() - 1, ws.last().push(c));
    if ws.len() == 1 {
    } else {
        assert(ws2.drop_last() =~= ws.drop_last());
        assert(join_words(ws2) =~= join_words(ws).push(c));
    }
}

proof fn lemma_join_push(ws: Seq<Seq<char>>, w: Seq<char>)
    ensures
        join_words(ws.push(w)) == if ws.len() == 0 {
            w
        } else {
            join_words(ws) + seq![' '] + w
        },
{
    assert(ws.push(w).drop_last() =~= ws);
}

/// The normal form of `s`.
pub fn normalize(s: &str) -> (r: String)
    ensures
        r@ == normal_form(s@),
        normal_shape(r@),
{
    proof {
        lemma_normal_form_shape(s@);
    }
    let v = chars_of(s);
    let ghost f = fold(s@);
    let mut out: Vec<char> = Vec::new();
    let mut any_word = false;
    let mut in_word = false;
    let mut i: usize = 0;
    while i < v.len()
        invariant
            i <= v.len(),
            v@ == s@,
            f == fold(s@),
            f.len() == v.len(),
            out@ == join_words(words(f.take(i as int))),
            any_word == (words(f.take(i as int)).len() > 0),
            in_word == (i > 0 && !is_white_space(f[i - 1])),
            in_word ==> any_word,
        decreases v.len() - i,
    {
        let raw = v[i];
        let c = if 'A' <= raw && raw <= 'Z' {
            ((raw as u32) + 32) as u8 as char
        } else if ('a' <= raw && raw <= 'z') || ('0' <= raw && raw <= '9') {
            raw
        } else {
            ' '
        };
        assert(c == f[i as int]);
        let ghost p = f.take(i as int);
        let ghost p2 = f.take(i + 1);
        assert(p2.drop_last() =~= p);
        assert(p2.last() == c);
        if white_space(c) {
            in_word = false;
        } else {
            if in_word {
                proof {
                    lemma_join_extend_last(words(p), c);
                }
                out.push(c);
            } else {
                proof {
                    lemma_join_push(words(p), seq![c]);
                }
                if any_word {
                    out.push(' ');
                }
                out.push(c);
            }
            in_word = true;
            any_word = true;
        }
        i = i + 1;
    }
    assert(f.take(v.len() as int) =~= f);
    string_of(&out)
}


/// A lower-case ASCII letter or a digit.
pub open spec fn is_lower_alnum(c: char) -> bool {
    ('a' <= c && c <= 'z') || ('0' <= c && c <= '9')
}

/// The shape of a normal form: only lower-case letters, digits and
/// spaces, no space at either end, and no two spaces in a row.
pub open spec fn normal_shape(r: Seq<char>) -> bool {
    &&& forall|i: int| 0 <= i < r.len() ==> is_lower_alnum(#[trigger] r[i]) || r[i] == ' '
    &&& r.len() > 0 ==> r[0] != ' ' && r.last() != ' '
    &&& forall|i: int| 0 <= i < r.len() - 1 && #[trigger] r[i] == ' ' ==> r[i + 1] != ' '
}

/// Words that are not empty and hold only lower-case letters and digits.
pub open spec fn plain_words(ws: Seq<Seq<char>>) -> bool {
    forall|k: int| 0 <= k < ws.len() ==> (#[trigger] ws[k]).len() > 0 && forall|i: int|
        0 <= i < ws[k].len() ==> is_lower_alnum(#[trigger] ws[k][i])
}

proof fn lemma_fold_chars(s: Seq<char>)
    ensures
        forall|i: int| 0 <= i < fold(s).len() ==> is_lower_alnum(#[trigger] fold(s)[i]) || fold(s)[i] == ' ',
{
    assert forall|i: int| 0 <= i < fold(s).len() implies is_lower_alnum(#[trigger] fold(s)[i]) || fold(s)[i] == ' ' by {
        let c = s[i];
        if 'A' <= c && c <= 'Z' {
            assert(('a' as u32) <= (c as u32) + 32 <= ('z' as u32));
        }
    }
}

proof fn lemma_words_nonempty(t: Seq<char>)
    requires
        t.len() > 0,
        !is_white_space(t.last()),
    ensures
        words(t).len() > 0,
    decreases t.len(),
{
    if t.len() >= 2 && !is_white_space(t[t.len() - 2]) {
        let p = t.drop_last();
        assert(p.last() == t[t.len() - 2]);
        lemma_words_nonempty(p);
    }
}

proof fn lemma_words_plain(t: Seq<char>)
    requires
        forall|i: int| 0 <= i < t.len() ==> is_lower_alnum(#[trigger] t[i]) || t[i] == ' ',
    ensures
        plain_words(words(t)),
    decreases t.len(),
{
    if t.len() > 0 {
        let p = t.drop_last();
        assert forall|i: int| 0 <= i < p.len() implies is_lower_alnum(#[trigger] p[i]) || p[i] == ' ' by {
            assert(p[i] == t[i]);
        }
        lemma_words_plain(p);
        let c = t.last();
        assert(is_lower_alnum(c) || c == ' ');
        let w = words(p);
        let r = words(t);
        if !is_white_space(c) {
            assert(is_lower_alnum(c));
            if t.len() >= 2 && !is_white_space(t[t.len() - 2]) {
                assert(p.last() == t[t.len() - 2]);
                lemma_words_nonempty(p);
                let last = w.last().push(c);
                assert(r == w.update(w.len() - 1, last));
                assert forall|k: int| 0 <= k < r.len() implies (#[trigger] r[k]).len() > 0 && forall|i: int|
                    0 <= i < r[k].len() ==> is_lower_alnum(#[trigger] r[k][i]) by {
                    if k < w.len() - 1 {
                        assert(r[k] == w[k]);
                    } else {
                        assert(r[k] == last);
                        assert forall|i: int| 0 <= i < r[k].len() implies is_lower_alnum(#[trigger] r[k][i]) by {
                            if i < w.last().len() {
                                assert(r[k][i] == w[w.len() - 1][i]);
                            }
                        }
                    }
                }
            } else {
                assert(r == w.push(seq![c]));
                assert forall|k: int| 0 <= k < r.len() implies (#[trigger] r[k]).len() > 0 && forall|i: int|
                    0 <= i < r[k].len() ==> is_lower_alnum(#[trigger] r[k][i]) by {
                    if k < w.len() {
                        assert(r[k] == w[k]);
                    }
                }
            }
        }
    }
}

proof fn lemma_join_shape(ws: Seq<Seq<char>>)
    requires
        plain_words(ws),
    ensures
        normal_shape(join_words(ws)),
        ws.len() > 0 ==> join_words(ws).len() > 0,
    decreases ws.len(),
{
    if ws.len() == 1 {
        let w = ws[0];
        assert forall|i: int| 0 <= i < w.len() implies is_lower_alnum(#[trigger] w[i]) by {}
    } else if ws.len() > 1 {
        let prev = ws.drop_last();
        assert forall|k: int| 0 <= k < prev.len() implies (#[trigger] prev[k]).len() > 0 && forall|i: int|
            0 <= i < prev[k].len() ==> is_lower_alnum(#[trigger] prev[k][i]) by {
            assert(prev[k] == ws[k]);
        }
        lemma_join_shape(prev);
        let j = join_words(prev);
        let w = ws.last();
        let r = join_words(ws);
        assert(r == j + seq![' '] + w);
        assert forall|i: int| 0 <= i < r.len() implies is_lower_alnum(#[trigger] r[i]) || r[i] == ' ' by {
            if i < j.len() {
                assert(r[i] == j[i]);
            } else if i > j.len() {
                assert(r[i] == w[i - j.len() - 1]);
            }
        }
        assert(r[0] == j[0]);
        assert(r.last() == w.last());
        assert(is_lower_alnum(w[w.len() - 1]));
        assert forall|i: int| 0 <= i < r.len() - 1 && #[trigger] r[i] == ' ' implies r[i + 1] != ' ' by {
            if i < j.len() - 1 {
                assert(r[i] == j[i] && r[i + 1] == j[i + 1]);
            } else if i == j.len() - 1 {
                assert(r[i] == j.last());
            } else if i == j.len() {
                assert(r[i + 1] == w[0]);
                assert(is_lower_alnum(w[0]));
            } else {
                assert(r[i] == w[i - j.len() - 1]);
                assert(is_lower_alnum(w[i - j.len() - 1]));
            }
        }
    }
}

proof fn lemma_words_extend(y: Seq<char>, w: Seq<char>, j: int)
    requires
        y.len() == 0 || is_white_space(y.last()),
        1 <= j <= w.len(),
        forall|i: int| 0 <= i < w.len() ==> !is_white_space(#[trigger] w[i]),
    ensures
        words(y + w.take(j)) == words(y).push(w.take(j)),
    decreases j,
{
    let x = y + w.take(j);
    assert(x.drop_last() =~= y + w.take(j - 1));
    assert(x.last() == w[j - 1]);
    if j == 1 {
        assert(w.take(0) =~= Seq::<char>::empty());
        assert(y + w.take(0) =~= y);
        assert(w.take(1) =~= seq![w[0]]);
        if x.len() >= 2 {
            assert(x[x.len() - 2] == y.last());
        }
    } else {
        lemma_words_extend(y, w, j - 1);
        assert(x[x.len() - 2] == w[j - 2]);
        assert(w.take(j) =~= w.take(j - 1).push(w[j - 1]));
        let ws = words(y).push(w.take(j - 1));
        assert(ws.update(ws.len() - 1, ws.last().push(w[j - 1])) =~= words(y).push(w.take(j)));
    }
}

proof fn lemma_words_of_join(ws: Seq<Seq<char>>)
    requires
        plain_words(ws),
    ensures
        words(join_words(ws)) == ws,
    decreases ws.len(),
{
    if ws.len() == 0 {
    } else {
        let w = ws.last();
        assert forall|i: int| 0 <= i < w.len() implies !is_white_space(#[trigger] w[i]) by {
            assert(is_lower_alnum(w[i]));
        }
        assert(w.take(w.len() as int) =~= w);
        if ws.len() == 1 {
            lemma_words_extend(Seq::empty(), w, w.len() as int);
            assert(Seq::<char>::empty() + w =~= w);
            assert(ws =~= Seq::<Seq<char>>::empty().push(w));
        } else {
            let prev = ws.drop_last();
            assert forall|k: int| 0 <= k < prev.len() implies (#[trigger] prev[k]).len() > 0 && forall|i: int|
                0 <= i < prev[k].len() ==> is_lower_alnum(#[trigger] prev[k][i]) by {
                assert(prev[k] == ws[k]);
            }
            lemma_words_of_join(prev);
            let y = join_words(prev) + seq![' '];
            assert(y.drop_last() =~= join_words(prev));
            assert(words(y) == words(join_words(prev)));
            lemma_words_extend(y, w, w.len() as int);
            assert(ws =~= prev.push(w));
        }
    }
}

/// A normal form holds only lower-case letters, digits and single inner
/// spaces, and normalising it again leaves it as it is.
pub proof fn lemma_normal_form_shape(s: Seq<char>)
    ensures
        normal_shape(normal_form(s)),
        normal_form(normal_form(s)) == normal_form(s),
{
    lemma_fold_chars(s);
    lemma_words_plain(fold(s));
    let ws = words(fold(s));
    lemma_join_shape(ws);
    let r = join_words(ws);
    assert(fold(r) =~= r) by {
        assert forall|i: int| 0 <= i < r.len() implies fold(r)[i] == r[i] by {
            assert(is_lower_alnum(r[i]) || r[i] == ' ');
        }
    }
    lemma_words_of_join(ws);
}

pub open spec fn view_words(v: Seq<Vec<char>>) -> Seq<Seq<char>> {
    v.map_values(|w: Vec<char>| w@)
}

/// The words of `v` (`split_whitespace`).
fn split_words(v: &Vec<char>) -> (r: Vec<Vec<char>>)
    ensures
        view_words(r@) == words(v@),
{
    let mut out: Vec<Vec<char>> = Vec::new();
    let mut in_word = false;
    let mut i: usize = 0;
    assert(view_words(out@) =~= words(v@.take(0)));
    while i < v.len()
        invariant
            i <= v.len(),
            view_words(out@) == words(v@.take(i as int)),
            in_word == (i > 0 && !is_white_space(v@[i - 1])),
            in_word ==> out.len() > 0,
        decreases v.len() - i,
    {
        let c = v[i];
        let ghost p = v@.take(i as int);
        let ghost p2 = v@.take(i + 1);
        assert(p2.drop_last() =~= p);
        assert(p2.last() == c);
        if white_space(c) {
            in_word = false;
        } else {
            if in_word {
                let mut last = out.pop().unwrap();
                last.push(c);
                out.push(last);
                assert(view_words(out@) =~= words(p).update(words(p).len() - 1, words(p).last().push(c)));
            } else {
                let mut w: Vec<char> = Vec::new();
                w.push(c);
                out.push(w);
                assert(view_words(out@) =~= words(p).push(seq![c]));
            }
            in_word = true;
        }
        i = i + 1;
    }
    assert(v@.take(v.len() as int) =~= v@);
    out
}

/// `t` occurs in `h` as a run of consecutive characters (`str::contains`).
pub open spec fn is_infix(t: Seq<char>, h: Seq<char>) -> bool {
    exists|i: int| 0 <= i <= h.len() - t.len() && #[trigger] h.subrange(i, i + t.len()) == t
}

fn occurs_at(t: &Vec<char>, h: &Vec<char>, i: usize) -> (r: bool)
    requires
        i + t.len() <= h.len(),
    ensures
        r == (h@.subrange(i as int, i + t.len()) == t@),
{
    let mut k: usize = 0;
    while k < t.len()
        invariant
            k <= t.len(),
            i + t.len() <= h.len(),
            forall|m: int| 0 <= m < k ==> h@[i + m] == t@[m],
        decreases t.len() - k,
    {
        if h[i + k] != t[k] {
            assert(h@.subrange(i as int, i + t.len())[k as int] != t@[k as int]);
            return false;
        }
        k = k + 1;
    }
    assert(h@.subrange(i as int, i + t.len()) =~= t@);
    true
}

/// Whether `t` occurs in `h`.
fn infix(t: &Vec<char>, h: &Vec<char>) -> (r: bool)
    ensures
        r == is_infix(t@, h@),
{
    if t.len() == 0 {
        assert(h@.subrange(0, 0 + t.len()) =~= t@);
        return true;
    }
    if t.len() > h.len() {
        return false;
    }
    let last = h.len() - t.len();
    let mut i: usize = 0;
    while i <= last
        invariant
            last == h.len() - t.len(),
            last < h.len(),
            i <= last + 1,
            forall|m: int| 0 <= m < i ==> #[trigger] h@.subrange(m, m + t.len()) != t@,
        decreases last + 1 - i,
    {
        if occurs_at(t, h, i) {
            return true;
        }
        i = i + 1;
    }
    false
}

/// How many of the first `n` words occur in `h`.
pub open spec fn hits(ws: Seq<Seq<char>>, h: Seq<char>, n: nat) -> nat
    decreases n,
{
    if n == 0 {
        0
    } else {
        hits(ws, h, (n - 1) as nat) + if is_infix(ws[n - 1], h) { 1nat } else { 0nat }
    }
}

/// `-` read as a space.
pub open spec fn hyphens_to_spaces(s: Seq<char>) -> Seq<char> {
    s.map_values(|c: char| if c == '-' { ' ' } else { c })
}

/// The text that a query is matched against: the project name (hyphens
/// read as spaces) and the description, both in normal form, with a space
/// between them.
pub open spec fn haystack(name: Seq<char>, description: Seq<char>) -> Seq<char> {
    normal_form(hyphens_to_spaces(name)) + seq![' '] + normal_form(description)
}

/// The words that occur in `h`, as a predicate on words.
pub open spec fn occurs_in(h: Seq<char>) -> spec_fn(Seq<char>) -> bool {
    |w: Seq<char>| is_infix(w, h)
}

/// Occurring in a text is transitive: what occurs in a part of `c` occurs
/// in `c`.
pub proof fn lemma_infix_trans(a: Seq<char>, b: Seq<char>, c: Seq<char>)
    requires
        is_infix(a, b),
        is_infix(b, c),
    ensures
        is_infix(a, c),
{
    let i = choose|i: int| 0 <= i <= b.len() - a.len() && #[trigger] b.subrange(i, i + a.len()) == a;
    let j = choose|j: int| 0 <= j <= c.len() - b.len() && #[trigger] c.subrange(j, j + b.len()) == b;
    assert(c.subrange(j + i, j + i + a.len()) =~= c.subrange(j, j + b.len()).subrange(i, i + a.len()));
    assert(c.subrange(j + i, j + i + a.len()) == a);
}

/// The text that a query is matched against holds the project's name
/// (hyphens read as spaces) and its description, each in normal form: the
/// name first, then one space, then the description, and nothing else; so
/// whatever occurs in the description or the name occurs in it.
pub proof fn lemma_haystack_holds_name_and_description(name: Seq<char>, description: Seq<char>)
    ensures
        haystack(name, description).len() == normal_form(hyphens_to_spaces(name)).len() + 1
            + normal_form(description).len(),
        haystack(name, description).take(normal_form(hyphens_to_spaces(name)).len() as int)
            == normal_form(hyphens_to_spaces(name)),
        haystack(name, description)[normal_form(hyphens_to_spaces(name)).len() as int] == ' ',
        haystack(name, description).skip(normal_form(hyphens_to_spaces(name)).len() as int + 1)
            == normal_form(description),
        is_infix(normal_form(hyphens_to_spaces(name)), haystack(name, description)),
        is_infix(normal_form(description), haystack(name, description)),
        forall|t: Seq<char>| #[trigger] is_infix(t, normal_form(description)) ==> is_infix(t, haystack(name, description)),
        forall|t: Seq<char>| #[trigger] is_infix(t, normal_form(hyphens_to_spaces(name))) ==> is_infix(t, haystack(name, description)),
{
    let n = normal_form(hyphens_to_spaces(name));
    let d = normal_form(description);
    let h = haystack(name, description);
    assert(h.subrange(0, 0 + n.len() as int) =~= n);
    assert(h.take(n.len() as int) =~= n);
    assert(h.skip(n.len() as int + 1) =~= d);
    let i: int = n.len() as int + 1;
    assert(h.subrange(i, i + d.len()) =~= d);
    assert(is_infix(n, h));
    assert(is_infix(d, h));
    assert forall|t: Seq<char>| #[trigger] is_infix(t, d) implies is_infix(t, h) by {
        lemma_infix_trans(t, d, h);
    }
    assert forall|t: Seq<char>| #[trigger] is_infix(t, n) implies is_infix(t, h) by {
        lemma_infix_trans(t, n, h);
    }
}

/// The number of hits among the first `n` words is the number of those
/// words that occur in `h`, whatever their order.
pub proof fn lemma_hits_count_occurring(ws: Seq<Seq<char>>, h: Seq<char>, n: nat)
    requires
        n <= ws.len(),
    ensures
        hits(ws, h, n) == ws.take(n as int).filter(occurs_in(h)).len(),
    decreases n,
{
    if n == 0 {
        reveal(Seq::filter);
        assert(ws.take(0) =~= Seq::<Seq<char>>::empty());
    } else {
        lemma_hits_count_occurring(ws, h, (n - 1) as nat);
        assert(ws.take(n as int) =~= ws.take(n - 1).push(ws[n - 1]));
        ws.take(n - 1).lemma_filter_push(ws[n - 1], occurs_in(h));
    }
}

/// Hits add up over a query split in two: each word counts by itself,
/// whatever words come before it.
pub proof fn lemma_hits_add_up(a: Seq<Seq<char>>, b: Seq<Seq<char>>, h: Seq<char>)
    ensures
        hits(a + b, h, (a + b).len()) == hits(a, h, a.len()) + hits(b, h, b.len()),
{
    lemma_hits_count_occurring(a + b, h, (a + b).len());
    lemma_hits_count_occurring(a, h, a.len());
    lemma_hits_count_occurring(b, h, b.len());
    assert((a + b).take((a + b).len() as int) =~= a + b);
    assert(a.take(a.len() as int) =~= a);
    assert(b.take(b.len() as int) =~= b);
    Seq::filter_distributes_over_add(a, b, occurs_in(h));
}

/// Counting the words that satisfy a weaker test counts at least as many.
pub proof fn lemma_filter_count_monotone(ws: Seq<Seq<char>>, p: spec_fn(Seq<char>) -> bool, q: spec_fn(Seq<char>) -> bool)
    requires
        forall|w: Seq<char>| #[trigger] p(w) ==> q(w),
    ensures
        ws.filter(p).len() <= ws.filter(q).len(),
    decreases ws.len(),
{
    if ws.len() == 0 {
        reveal(Seq::filter);
    } else {
        let init = ws.drop_last();
        lemma_filter_count_monotone(init, p, q);
        assert(init.push(ws.last()) =~= ws);
        init.lemma_filter_push(ws.last(), p);
        init.lemma_filter_push(ws.last(), q);
    }
}

/// A query word that occurs in `part`, a part of the haystack, is a hit:
/// the hits are at least the query words that occur in `part`.
proof fn lemma_hits_cover_part(ws: Seq<Seq<char>>, part: Seq<char>, h: Seq<char>)
    requires
        forall|t: Seq<char>| #[trigger] is_infix(t, part) ==> is_infix(t, h),
    ensures
        hits(ws, h, ws.len()) == ws.filter(occurs_in(h)).len(),
        ws.filter(occurs_in(part)).len() <= hits(ws, h, ws.len()),
{
    lemma_hits_count_occurring(ws, h, ws.len());
    assert(ws.take(ws.len() as int) =~= ws);
    assert forall|w: Seq<char>| #[trigger] occurs_in(part)(w) implies occurs_in(h)(w) by {
        assert(is_infix(w, part));
    }
    lemma_filter_count_monotone(ws, occurs_in(part), occurs_in(h));
}

/// The features' counts and tests read the description and the name.
proof fn lemma_features_read_both(name: Seq<char>, desc: Seq<char>, query: Seq<char>)
    ensures
        hits(words(normal_form(query)), haystack(name, desc), words(normal_form(query)).len())
            == words(normal_form(query)).filter(occurs_in(haystack(name, desc))).len(),
        words(normal_form(query)).filter(occurs_in(normal_form(desc))).len()
            <= hits(words(normal_form(query)), haystack(name, desc), words(normal_form(query)).len()),
        words(normal_form(query)).filter(occurs_in(normal_form(hyphens_to_spaces(name)))).len()
            <= hits(words(normal_form(query)), haystack(name, desc), words(normal_form(query)).len()),
        is_infix(normal_form(query), normal_form(desc)) ==> is_infix(normal_form(query), haystack(name, desc)),
        is_infix(normal_form(query), normal_form(hyphens_to_spaces(name))) ==> is_infix(
            normal_form(query),
            haystack(name, desc),
        ),
{
    let ws = words(normal_form(query));
    lemma_haystack_holds_name_and_description(name, desc);
    lemma_hits_cover_part(ws, normal_form(desc), haystack(name, desc));
    lemma_hits_cover_part(ws, normal_form(hyphens_to_spaces(name)), haystack(name, desc));
}

/// What a search reads of one project against one query, all of it whole
/// numbers and truth values.
pub struct MatchFeatures {
    /// The project's name, as it stands in the contract.
    pub name: String,
    /// The project's description, as it stands in the contract.
    pub description: String,
    /// The query in normal form.
    pub query: String,
    /// The project's name (hyphens read as spaces) in normal form: what
    /// the query is compared with for similarity.
    pub match_name: String,
    /// How many words of the normalised query occur in the haystack.
    pub token_hits: usize,
    /// How many words the normalised query has.
    pub token_count: usize,
    /// The project's name is exactly the query as given.
    pub exact: bool,
    /// The haystack contains the whole normalised query.
    pub contains_query: bool,
}

/// The features of `contract` against `query`.
pub fn match_features(contract: &ProjectContract, query: &str) -> (r: MatchFeatures)
    ensures
        r.name@ == contract.project.name@,
        r.description@ == contract.project.description@,
        r.query@ == normal_form(query@),
        r.match_name@ == normal_form(hyphens_to_spaces(contract.project.name@)),
        r.token_count == words(normal_form(query@)).len(),
        r.token_hits == hits(
            words(normal_form(query@)),
            haystack(contract.project.name@, contract.project.description@),
            words(normal_form(query@)).len(),
        ),
        r.token_hits <= r.token_count,
        r.exact == (contract.project.name@ == query@),
        r.contains_query == is_infix(
            normal_form(query@),
            haystack(contract.project.name@, contract.project.description@),
        ),
        r.token_hits == words(normal_form(query@)).filter(
            occurs_in(haystack(contract.project.name@, contract.project.description@)),
        ).len(),
        r.token_hits >= words(normal_form(query@)).filter(
            occurs_in(normal_form(contract.project.description@)),
        ).len(),
        r.token_hits >= words(normal_form(query@)).filter(
            occurs_in(normal_form(hyphens_to_spaces(contract.project.name@))),
        ).len(),
        is_infix(normal_form(query@), normal_form(contract.project.description@)) ==> r.contains_query,
        is_infix(normal_form(query@), normal_form(hyphens_to_spaces(contract.project.name@)))
            ==> r.contains_query,
{
    let q = normalize(query);
    let qv = chars_of(q.as_str());
    let tokens = split_words(&qv);
    let name_chars = chars_of(contract.project.name.as_str());
    let mut spaced: Vec<char> = Vec::new();
    let mut i: usize = 0;
    while i < name_chars.len()
        invariant
            i <= name_chars.len(),
            spaced@ == hyphens_to_spaces(name_chars@.take(i as int)),
        decreases name_chars.len() - i,
    {
        let c = name_chars[i];
        spaced.push(if c == '-' { ' ' } else { c });
        assert(hyphens_to_spaces(name_chars@.take(i + 1)) =~= hyphens_to_spaces(
            name_chars@.take(i as int),
        ).push(if c == '-' { ' ' } else { c }));
        i = i + 1;
    }
    assert(name_chars@.take(name_chars.len() as int) =~= name_chars@);
    let spaced_name = string_of(&spaced);
    let match_name = normalize(spaced_name.as_str());
    let description = normalize(contract.project.description.as_str());
    let mut hay = chars_of(match_name.as_str());
    hay.push(' ');
    let dv = chars_of(description.as_str());
    let mut k: usize = 0;
    let ghost h0 = hay@;
    while k < dv.len()
        invariant
            k <= dv.len(),
            hay@ == h0 + dv@.take(k as int),
        decreases dv.len() - k,
    {
        hay.push(dv[k]);
        assert(h0 + dv@.take(k + 1) =~= (h0 + dv@.take(k as int)).push(dv@[k as int]));
        k = k + 1;
    }
    assert(dv@.take(dv.len() as int) =~= dv@);
    assert(hay@ =~= haystack(contract.project.name@, contract.project.description@));
    let ghost ws = words(normal_form(query@));
    let mut count: usize = 0;
    let mut t: usize = 0;
    while t < tokens.len()
        invariant
            t <= tokens.len(),
            view_words(tokens@) == ws,
            count == hits(ws, hay@, t as nat),
            count <= t,
        decreases tokens.len() - t,
    {
        assert(ws[t as int] == tokens[t as int]@);
        if infix(&tokens[t], &hay) {
            count = count + 1;
        }
        t = t + 1;
    }
    let contains_query = infix(&qv, &hay);
    let query_owned = owned(query);
    let exact = contract.project.name == query_owned;
    proof {
        lemma_features_read_both(contract.project.name@, contract.project.description@, query@);
    }
    MatchFeatures {
        name: contract.project.name.clone(),
        description: contract.project.description.clone(),
        query: q,
        match_name,
        token_hits: count,
        token_count: tokens.len(),
        exact,
        contains_query,
    }
}

} // verus!
