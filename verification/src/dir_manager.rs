//! The names of the configurations found in the configuration directory,
//! and the state of the directory manager.
use vstd::prelude::*;
use std::cmp::Ordering;
use crate::config::Config;
use crate::settings::{Settings, SettingsState};
use crate::text::{concat, ends_with, has_outer_whitespace};
use crate::parse::{digits_value, is_digit};

verus! {

/// The extension of configuration files.
pub open spec fn toml_ext() -> Seq<char> {
    seq!['.', 't', 'o', 'm', 'l']
}

/// `s` ends with `.toml`.
pub open spec fn has_toml_ext(s: Seq<char>) -> bool {
    s.len() >= 5 && s.subrange(s.len() - 5, s.len() as int) == toml_ext()
}

/// `s` without a final `.toml`.
pub open spec fn without_toml(s: Seq<char>) -> Seq<char> {
    if has_toml_ext(s) {
        s.subrange(0, s.len() - 5)
    } else {
        s
    }
}

/// `s` with `.toml` added, unless it ends with it.
pub open spec fn with_toml(s: Seq<char>) -> Seq<char> {
    if has_toml_ext(s) {
        s
    } else {
        s + toml_ext()
    }
}

/// The name of a configuration file for the configuration `input`.
pub fn add_toml_extension(input: &str) -> (r: String)
    ensures
        r@ == with_toml(input@),
{
    proof {
        reveal_strlit(".toml");
        assert(".toml"@ =~= toml_ext());
    }
    if !ends_with(input, ".toml") {
        concat(input, ".toml")
    } else {
        String::from_str(input)
    }
}

/// The name of a configuration, from the name of its file.
pub fn remove_toml_extension(s: &str) -> (r: &str)
    ensures
        r@ == without_toml(s@),
{
    proof {
        reveal_strlit(".toml");
        assert(".toml"@ =~= toml_ext());
    }
    if ends_with(s, ".toml") {
        let len = s.unicode_len();
        s.substring_char(0, len - 5)
    } else {
        s
    }
}

/// `a` and `b` are the same text.
pub fn same_text(a: &str, b: &str) -> (r: bool)
    ensures
        r == (a@ == b@),
{
    if a.unicode_len() != b.unicode_len() {
        return false;
    }
    let r = ends_with(a, b);
    proof {
        assert(a@.subrange(0, a@.len() as int) =~= a@);
    }
    r
}

/// The configuration named by a file of the configuration directory: the
/// file's name without `.toml`; none for the settings and hardware files.
pub fn config_name_of(file_name: &str) -> (r: Option<String>)
    ensures
        r is None <==> (file_name@ == "settings.toml"@ || file_name@ == "hardware.toml"@),
        r matches Some(n) ==> n@ == without_toml(file_name@),
{
    if same_text(file_name, "settings.toml") || same_text(file_name, "hardware.toml") {
        None
    } else {
        Some(String::from_str(remove_toml_extension(file_name)))
    }
}

/// The text of `s` as `lexical_sort` reads it before comparing: each
/// character lowercased and, when alphanumeric, transliterated to ASCII.
pub uninterp spec fn lexical_text(s: Seq<char>) -> Seq<char>;

/// `lexical_sort::iter::iterate_lexical`, collected into a `String`: the text
/// that `natural_lexical_cmp` reads. The transliteration takes tables to
/// state; it is named, not stated.
#[verifier::external_body]
fn lexical_chars(s: &str) -> (r: String)
    ensures
        r@ == lexical_text(s@),
{
    lexical_sort::iter::iterate_lexical(s).collect()
}

/// Positions `s` to `e` of `ta` and `tb` hold digits in both texts, and the
/// position before `s`, if any, does not: a run of digits that the two texts
/// hold side by side, from its start.
pub open spec fn common_run(ta: Seq<char>, tb: Seq<char>, s: int, e: int) -> bool {
    &&& 0 <= s < e
    &&& e <= ta.len()
    &&& e <= tb.len()
    &&& s > 0 ==> !(is_digit(ta[s - 1]) && is_digit(tb[s - 1]))
    &&& forall|k: int| s <= k < e ==> is_digit(#[trigger] ta[k]) && is_digit(tb[k])
}

/// Both texts hold a digit at position `k`.
pub open spec fn both_digits(ta: Seq<char>, tb: Seq<char>, k: int) -> bool {
    is_digit(ta[k]) && is_digit(tb[k])
}

/// Both texts write, at positions `s` to `e`, a number that a `u64` holds.
pub open spec fn run_fits(ta: Seq<char>, tb: Seq<char>, s: int, e: int) -> bool {
    digits_value(ta.subrange(s, e)) <= u64::MAX && digits_value(tb.subrange(s, e)) <= u64::MAX
}

/// Every run of digits that `ta` and `tb` hold side by side writes, in each
/// text and from its start, a number that a `u64` holds.
pub open spec fn aligned_runs_fit(ta: Seq<char>, tb: Seq<char>) -> bool {
    forall|s: int, e: int| #[trigger] common_run(ta, tb, s, e) ==> run_fits(ta, tb, s, e)
}

/// Two texts that `lexical_sort` compares without overflow. It reads both
/// transliterated texts in step; where both hold a digit it reads on while
/// both do, adding up the two numbers so far in a `u64` each.
pub open spec fn comparable_pair(a: Seq<char>, b: Seq<char>) -> bool {
    aligned_runs_fit(lexical_text(a), lexical_text(b))
}

/// Whether `lexical_sort` can compare `a` and `b` without overflow.
pub fn comparable_texts(a: &str, b: &str) -> (r: bool)
    ensures
        r == comparable_pair(a@, b@),
{
    let sa = lexical_chars(a);
    let sb = lexical_chars(b);
    let ta = sa.as_str();
    let tb = sb.as_str();
    let na = ta.unicode_len();
    let nb = tb.unicode_len();
    let n = if na < nb {
        na
    } else {
        nb
    };
    let ghost va = ta@;
    let ghost vb = tb@;
    let mut run: usize = 0;
    let mut xa: u64 = 0;
    let mut xb: u64 = 0;
    let mut i: usize = 0;
    while i < n
        invariant
            va == lexical_text(a@),
            vb == lexical_text(b@),
            ta@ == va,
            tb@ == vb,
            n <= va.len(),
            n <= vb.len(),
            n == va.len() || n == vb.len(),
            i <= n,
            run <= i,
            forall|k: int| i - run <= k < i ==> #[trigger] both_digits(va, vb, k),
            run < i ==> !(is_digit(va[i - run - 1]) && is_digit(vb[i - run - 1])),
            xa == digits_value(va.subrange(i - run, i as int)),
            xb == digits_value(vb.subrange(i - run, i as int)),
            forall|s: int, e: int| #[trigger] common_run(va, vb, s, e) && e <= i ==> run_fits(va, vb, s, e),
        decreases n - i,
    {
        let ca = ta.get_char(i);
        let cb = tb.get_char(i);
        let ghost start = i - run;
        if '0' <= ca && ca <= '9' && '0' <= cb && cb <= '9' {
            let ya: u128 = (xa as u128) * 10 + ((ca as u32) - ('0' as u32)) as u128;
            let yb: u128 = (xb as u128) * 10 + ((cb as u32) - ('0' as u32)) as u128;
            proof {
                assert(va.subrange(start, i + 1).drop_last() =~= va.subrange(start, i as int));
                assert(vb.subrange(start, i + 1).drop_last() =~= vb.subrange(start, i as int));
                assert(digits_value(va.subrange(start, i + 1)) == ya);
                assert(digits_value(vb.subrange(start, i + 1)) == yb);
            }
            if ya > u64::MAX as u128 || yb > u64::MAX as u128 {
                proof {
                    assert forall|k: int| start <= k < i + 1 implies is_digit(#[trigger] va[k]) && is_digit(vb[k]) by {
                        if k < i {
                            assert(both_digits(va, vb, k));
                        }
                    }
                    assert(common_run(va, vb, start, i + 1));
                    assert(!run_fits(va, vb, start, i + 1));
                }
                return false;
            }
            proof {
                assert forall|s: int, e: int| #[trigger] common_run(va, vb, s, e) && e <= i + 1 implies run_fits(
                    va,
                    vb,
                    s,
                    e,
                ) by {
                    if e == i + 1 {
                        if s < start {
                            assert(is_digit(va[start - 1]) && is_digit(vb[start - 1]));
                        }
                        if s > start {
                            assert(both_digits(va, vb, s - 1));
                        }
                    }
                }
            }
            xa = ya as u64;
            xb = yb as u64;
            run = run + 1;
            proof {
                assert(is_digit(va[i as int]) && is_digit(vb[i as int]));
                assert forall|k: int| i + 1 - run <= k < i + 1 implies #[trigger] both_digits(va, vb, k) by {
                    if k < i {
                        assert(both_digits(va, vb, k));
                    }
                }
            }
        } else {
            proof {
                assert forall|s: int, e: int| #[trigger] common_run(va, vb, s, e) && e <= i + 1 implies run_fits(
                    va,
                    vb,
                    s,
                    e,
                ) by {
                    if e == i + 1 {
                        assert(is_digit(va[i as int]) && is_digit(vb[i as int]));
                    }
                }
                assert(va.subrange(i + 1, i + 1) =~= Seq::<char>::empty());
                assert(vb.subrange(i + 1, i + 1) =~= Seq::<char>::empty());
            }
            xa = 0;
            xb = 0;
            run = 0;
        }
        i = i + 1;
    }
    true
}

/// The order that `lexical_sort::natural_lexical_cmp` gives two texts, as -1, 0 or 1.
pub uninterp spec fn natural_lexical_order(a: Seq<char>, b: Seq<char>) -> int;

/// `lexical_sort::natural_lexical_cmp`: compares two texts, runs of digits by
/// their value. The order itself is named, not stated; the crate's source
/// shows that it is -1, 0 or 1 and that a text compares equal to itself. The
/// crate adds up, in a `u64` each, runs of digits that both transliterated
/// texts hold at the same positions, which overflows where such a run writes
/// a number above `u64::MAX`: such pairs of texts are left out, also where the
/// comparison would end before it reaches that run.
#[verifier::external_body]
fn natural_order_of(a: &str, b: &str) -> (r: i8)
    requires
        comparable_pair(a@, b@),
    ensures
        r == natural_lexical_order(a@, b@),
        -1 <= r <= 1,
        a@ == b@ ==> r == 0,
{
    match lexical_sort::natural_lexical_cmp(a, b) {
        Ordering::Less => -1,
        Ordering::Equal => 0,
        Ordering::Greater => 1,
    }
}

/// `b` does not come before `a` by either comparison of the two.
pub open spec fn in_order(a: Seq<char>, b: Seq<char>) -> bool {
    natural_lexical_order(a, b) <= 0 || natural_lexical_order(b, a) > 0
}

/// `name` can be compared with every name of `v`.
pub open spec fn comparable_with(name: Seq<char>, v: Seq<String>) -> bool {
    forall|k: int| 0 <= k < v.len() ==> comparable_pair(name, #[trigger] v[k]@)
}

/// Any two names at different places of `v` can be compared.
pub open spec fn pairwise_comparable(v: Seq<String>) -> bool {
    forall|i: int, j: int|
        0 <= i < v.len() && 0 <= j < v.len() && i != j ==> comparable_pair(#[trigger] v[i]@, #[trigger] v[j]@)
}

/// The texts of the strings of `v`.
pub open spec fn texts_of(v: Seq<String>) -> Seq<Seq<char>> {
    Seq::new(v.len(), |i: int| v[i]@)
}

/// Any two texts at different places of `t` can be compared.
pub open spec fn pairwise_comparable_texts(t: Seq<Seq<char>>) -> bool {
    forall|i: int, j: int|
        0 <= i < t.len() && 0 <= j < t.len() && i != j ==> comparable_pair(#[trigger] t[i], #[trigger] t[j])
}

proof fn lemma_pairwise_texts(v: Seq<String>)
    ensures
        pairwise_comparable(v) == pairwise_comparable_texts(texts_of(v)),
{
    let t = texts_of(v);
    if pairwise_comparable(v) {
        assert forall|i: int, j: int| 0 <= i < t.len() && 0 <= j < t.len() && i != j implies comparable_pair(
            #[trigger] t[i],
            #[trigger] t[j],
        ) by {
            assert(comparable_pair(v[i]@, v[j]@));
        }
    }
    if pairwise_comparable_texts(t) {
        assert forall|i: int, j: int| 0 <= i < v.len() && 0 <= j < v.len() && i != j implies comparable_pair(
            #[trigger] v[i]@,
            #[trigger] v[j]@,
        ) by {
            assert(comparable_pair(t[i], t[j]));
        }
    }
}

/// The configuration names that the files of a directory give, in the
/// files' order: each file is named and told whether it reads as a
/// configuration; those that do, but the settings and hardware files, give
/// their names without `.toml`.
pub open spec fn config_file_names(files: Seq<(String, bool)>) -> Seq<Seq<char>>
    decreases files.len(),
{
    if files.len() == 0 {
        Seq::empty()
    } else {
        let rest = config_file_names(files.drop_last());
        let f = files.last();
        if f.1 && f.0@ != "settings.toml"@ && f.0@ != "hardware.toml"@ {
            rest.push(without_toml(f.0@))
        } else {
            rest
        }
    }
}

/// `v1` is `v0` with the name `name`, its extension dropped, inserted at
/// some position `p`; where the names of `v0` are ordered around it, every
/// name before `p` compares at least equal to it and every name from `p` on
/// at most equal.
pub open spec fn name_inserted(v0: Seq<String>, v1: Seq<String>, name: Seq<char>) -> bool {
    exists|p: int|
        0 <= p <= v0.len() && v1.len() == v0.len() + 1 && v1[p]@ == without_toml(name) && v1.remove(p) == v0
            && (natural_search_sorted(without_toml(name), v0) ==> (forall|i: int|
            0 <= i < p ==> natural_lexical_order(without_toml(name), #[trigger] v0[i]@) <= 0) && (forall|i: int|
            p <= i < v0.len() ==> natural_lexical_order(without_toml(name), #[trigger] v0[i]@) >= 0))
}

/// `v1` is `v0` without its first name equal to `name`, its extension
/// dropped, or `v0` itself when there is none.
pub open spec fn name_removed(v0: Seq<String>, v1: Seq<String>, name: Seq<char>) -> bool {
    &&& count_name(v0, without_toml(name)) == 0 ==> v1 == v0
    &&& count_name(v0, without_toml(name)) > 0 ==> exists|i: int|
        0 <= i < v0.len() && v0[i]@ == without_toml(name) && (forall|j: int|
            0 <= j < i ==> v0[j]@ != without_toml(name)) && v1 == v0.remove(i)
}

/// `name` can be compared with every name of `v0` but the one that removing
/// `removed` takes out.
pub open spec fn comparable_once_removed(v0: Seq<String>, removed: Seq<char>, name: Seq<char>) -> bool {
    forall|v1: Seq<String>| #[trigger] name_removed(v0, v1, removed) ==> comparable_with(name, v1)
}

/// Whether `lexical_sort` can compare `name` with every name of `v` but the
/// first one equal to `removed` without its extension.
pub fn comparable_with_rest(name: &str, v: &Vec<String>, removed: &str) -> (r: bool)
    ensures
        r == comparable_once_removed(v@, removed@, name@),
{
    let target = remove_toml_extension(removed);
    let skip = index_of_name(v, target);
    let ghost v0 = v@;
    let ghost w = without_toml(removed@);
    let ghost kept: Seq<String> = match skip {
        Some(i) => v0.remove(i as int),
        None => v0,
    };
    proof {
        match skip {
            Some(i) => {
                lemma_count_positive(v0, w, i as int);
                assert(name_removed(v0, kept, removed@));
            },
            None => {
                lemma_count_zero(v0, w);
                assert(name_removed(v0, kept, removed@));
            },
        }
    }
    let mut k: usize = 0;
    while k < v.len()
        invariant
            k <= v@.len(),
            v@ == v0,
            w == without_toml(removed@),
            match skip {
                Some(i) => i < v0.len() && v0[i as int]@ == w && (forall|j: int| 0 <= j < i ==> v0[j]@ != w) && kept
                    == v0.remove(i as int),
                None => (forall|j: int| 0 <= j < v0.len() ==> v0[j]@ != w) && kept == v0,
            },
            name_removed(v0, kept, removed@),
            forall|j: int| 0 <= j < k && skip != Some(j as usize) ==> comparable_pair(name@, #[trigger] v0[j]@),
        decreases v@.len() - k,
    {
        if skip != Some(k) && !comparable_texts(name, v[k].as_str()) {
            proof {
                let kk: int = match skip {
                    Some(i) => if (k as int) < (i as int) {
                        k as int
                    } else {
                        k - 1
                    },
                    None => k as int,
                };
                assert(kept[kk] == v0[k as int]);
                assert(!comparable_with(name@, kept));
            }
            return false;
        }
        k = k + 1;
    }
    proof {
        assert forall|v1: Seq<String>| #[trigger] name_removed(v0, v1, removed@) implies comparable_with(name@, v1) by {
            match skip {
                Some(i) => {
                    let m = choose|m: int|
                        0 <= m < v0.len() && v0[m]@ == w && (forall|j: int| 0 <= j < m ==> v0[j]@ != w) && v1
                            == v0.remove(m);
                    if m < i {
                    } else if m > i {
                        assert(v0[i as int]@ == w);
                    }
                    assert forall|q: int| 0 <= q < v1.len() implies comparable_pair(name@, #[trigger] v1[q]@) by {
                        if q < i {
                            assert(v1[q] == v0[q]);
                            assert(skip != Some(q as usize));
                        } else {
                            assert(v1[q] == v0[q + 1]);
                            assert(skip != Some((q + 1) as usize));
                        }
                    }
                },
                None => {
                    assert forall|q: int| 0 <= q < v1.len() implies comparable_pair(name@, #[trigger] v1[q]@) by {
                        assert(v1[q] == v0[q]);
                    }
                },
            }
        }
    }
    true
}

/// Whether `lexical_sort` can compare `name` with every name of `v`.
pub fn comparable_with_all(name: &str, v: &Vec<String>) -> (r: bool)
    ensures
        r == comparable_with(name@, v@),
{
    let mut i: usize = 0;
    while i < v.len()
        invariant
            i <= v@.len(),
            forall|k: int| 0 <= k < i ==> comparable_pair(name@, #[trigger] v@[k]@),
        decreases v@.len() - i,
    {
        if !comparable_texts(name, v[i].as_str()) {
            return false;
        }
        i = i + 1;
    }
    true
}

/// Whether `lexical_sort` can compare any two names at different places of `v`.
pub fn pairwise_naturally_comparable(v: &Vec<String>) -> (r: bool)
    ensures
        r == pairwise_comparable(v@),
{
    let mut i: usize = 0;
    while i < v.len()
        invariant
            i <= v@.len(),
            forall|a: int, b: int|
                0 <= a < i && 0 <= b < v@.len() && a != b ==> comparable_pair(#[trigger] v@[a]@, #[trigger] v@[b]@),
        decreases v@.len() - i,
    {
        let mut j: usize = 0;
        while j < v.len()
            invariant
                i < v@.len(),
                j <= v@.len(),
                forall|a: int, b: int|
                    0 <= a < i && 0 <= b < v@.len() && a != b ==> comparable_pair(#[trigger] v@[a]@, #[trigger] v@[b]@),
                forall|b: int| 0 <= b < j && b != i ==> comparable_pair(v@[i as int]@, #[trigger] v@[b]@),
            decreases v@.len() - j,
        {
            if j != i && !comparable_texts(v[i].as_str(), v[j].as_str()) {
                return false;
            }
            j = j + 1;
        }
        i = i + 1;
    }
    true
}

/// How many names of `v` are `name`.
pub open spec fn count_name(v: Seq<String>, name: Seq<char>) -> nat
    decreases v.len(),
{
    if v.len() == 0 {
        0
    } else {
        count_name(v.drop_last(), name) + if v.last()@ == name {
            1nat
        } else {
            0nat
        }
    }
}

/// Why a configuration file could not be used: the message of the failing
/// read, parse or write, or no current configuration to save.
#[derive(Debug)]
pub enum ConfigError {
    Io(String),
    TomlDeserialization(String),
    TomlSerialization(String),
    NoName,
}

/// The names of the configurations, ordered naturally.
pub struct ConfigNames {
    pub data: Vec<String>,
}

proof fn lemma_comparable_prefix(names: Seq<String>, i: int, out: Seq<String>)
    requires
        pairwise_comparable(names),
        0 <= i < names.len(),
        out.to_multiset() == names.take(i).to_multiset(),
    ensures
        forall|k: int| 0 <= k < out.len() ==> comparable_pair(#[trigger] out[k]@, names[i]@),
{
    assert forall|k: int| 0 <= k < out.len() implies comparable_pair(#[trigger] out[k]@, names[i]@) by {
        vstd::seq_lib::to_multiset_contains(out, out[k]);
        vstd::seq_lib::to_multiset_contains(names.take(i), out[k]);
        assert(out.contains(out[k]));
        let m = choose|m: int| 0 <= m < names.take(i).len() && names.take(i)[m] == out[k];
        assert(names[m] == out[k]);
    }
}

impl ConfigNames {
    /// The names found in a directory, ordered by an insertion sort led by
    /// `natural_lexical_cmp`.
    pub fn from_names(names: Vec<String>) -> (r: Self)
        requires
            pairwise_comparable(names@),
        ensures
            r.data@.to_multiset() == names@.to_multiset(),
            forall|i: int| 0 <= i < r.data@.len() - 1 ==> in_order(#[trigger] r.data@[i]@, r.data@[i + 1]@),
    {
        broadcast use vstd::seq_lib::to_multiset_insert;

        let mut out: Vec<String> = Vec::new();
        let mut i: usize = 0;
        proof {
            assert(names@.take(0) =~= Seq::<String>::empty());
            assert(out@ =~= Seq::<String>::empty());
        }
        while i < names.len()
            invariant
                i <= names@.len(),
                pairwise_comparable(names@),
                out@.to_multiset() == names@.take(i as int).to_multiset(),
                forall|k: int| 0 <= k < out@.len() - 1 ==> in_order(#[trigger] out@[k]@, out@[k + 1]@),
            decreases names@.len() - i,
        {
            let x = names[i].clone();
            proof {
                lemma_comparable_prefix(names@, i as int, out@);
            }
            let mut j: usize = out.len();
            while j > 0 && natural_order_of(out[j - 1].as_str(), x.as_str()) > 0
                invariant
                    j <= out@.len(),
                    forall|k: int| 0 <= k < out@.len() ==> comparable_pair(#[trigger] out@[k]@, x@),
                    forall|k: int| j <= k < out@.len() ==> natural_lexical_order(#[trigger] out@[k]@, x@) > 0,
                decreases j,
            {
                j = j - 1;
            }
            let ghost o = out@;
            proof {
                assert(names@.take(i + 1) =~= names@.take(i as int).push(x));
                vstd::seq_lib::to_multiset_build(names@.take(i as int), x);
                if j > 0 {
                    assert(natural_lexical_order(o[j - 1]@, x@) <= 0);
                }
            }
            out.insert(j, x);
            proof {
                vstd::seq_lib::to_multiset_insert(o, j as int, x);
                assert forall|k: int| 0 <= k < out@.len() - 1 implies in_order(#[trigger] out@[k]@, out@[k + 1]@) by {
                    if k < j as int - 1 {
                        assert(out@[k] == o[k] && out@[k + 1] == o[k + 1]);
                    } else if k == j as int - 1 {
                    } else if k == j as int {
                        assert(out@[k + 1] == o[k]);
                    } else {
                        assert(out@[k] == o[k - 1] && out@[k + 1] == o[k]);
                    }
                }
            }
            i = i + 1;
        }
        proof {
            assert(names@.take(names@.len() as int) =~= names@);
        }
        ConfigNames { data: out }
    }

    /// Removes the first name `name` (without its extension), if any.
    pub fn remove(&mut self, name: &str)
        ensures
            name_removed(old(self).data@, final(self).data@, name@),
    {
        let name = remove_toml_extension(name);
        let ghost v = self.data@;
        match index_of_name(&self.data, name) {
            Some(i) => {
                self.data.remove(i);
                proof {
                    lemma_count_positive(v, name@, i as int);
                }
            },
            None => {
                proof {
                    lemma_count_zero(v, name@);
                }
            },
        }
    }

    /// Inserts `name` (without its extension) where a binary search led by
    /// `natural_lexical_cmp(name, e)` for each element `e` looked at stops.
    /// When that comparison does not decrease along the names, every name
    /// before the new one compares at least equal to it there and every name
    /// after at most equal.
    pub fn add(&mut self, name: &str)
        requires
            comparable_with(without_toml(name@), old(self).data@),
        ensures
            name_inserted(old(self).data@, final(self).data@, name@),
    {
        let name = String::from_str(remove_toml_extension(name));
        let ghost v = self.data@;
        let mut left: usize = 0;
        let mut right: usize = self.data.len();
        let mut pos: usize = 0;
        while left < right
            invariant_except_break
                pos == left,
                left <= right <= v.len(),
                self.data@ == v,
                comparable_with(name@, v),
                natural_search_sorted(name@, v) ==> forall|i: int| 0 <= i < left ==> natural_lexical_order(name@, #[trigger] v[i]@) < 0,
                natural_search_sorted(name@, v) ==> forall|i: int| right <= i < v.len() ==> natural_lexical_order(name@, #[trigger] v[i]@) > 0,
            ensures
                self.data@ == v,
                pos <= v.len(),
                natural_search_sorted(name@, v) ==> (forall|i: int| 0 <= i < pos ==> natural_lexical_order(name@, #[trigger] v[i]@) <= 0)
                    && (forall|i: int| pos <= i < v.len() ==> natural_lexical_order(name@, #[trigger] v[i]@) >= 0),
            decreases right - left,
        {
            let mid = left + (right - left) / 2;
            let c = natural_order_of(name.as_str(), self.data[mid].as_str());
            if c < 0 {
                proof {
                    if natural_search_sorted(name@, v) {
                        assert forall|i: int| 0 <= i < mid + 1 implies natural_lexical_order(name@, #[trigger] v[i]@) < 0 by {
                            if i < mid {
                                assert(natural_lexical_order(name@, v[i]@) <= natural_lexical_order(name@, v[mid as int]@));
                            }
                        }
                    }
                }
                left = mid + 1;
                pos = left;
            } else if c > 0 {
                proof {
                    if natural_search_sorted(name@, v) {
                        assert forall|i: int| mid <= i < v.len() implies natural_lexical_order(name@, #[trigger] v[i]@) > 0 by {
                            if i > mid {
                                assert(natural_lexical_order(name@, v[mid as int]@) <= natural_lexical_order(name@, v[i]@));
                            }
                        }
                    }
                }
                right = mid;
                pos = left;
            } else {
                proof {
                    if natural_search_sorted(name@, v) {
                        assert forall|i: int| 0 <= i < mid implies natural_lexical_order(name@, #[trigger] v[i]@) <= 0 by {
                            assert(natural_lexical_order(name@, v[i]@) <= natural_lexical_order(name@, v[mid as int]@));
                        }
                        assert forall|i: int| mid <= i < v.len() implies natural_lexical_order(name@, #[trigger] v[i]@) >= 0 by {
                            assert(natural_lexical_order(name@, v[mid as int]@) <= natural_lexical_order(name@, v[i]@));
                        }
                    }
                }
                pos = mid;
                break;
            }
        }
        let ghost nm = name@;
        self.data.insert(pos, name);
        proof {
            assert(self.data@.remove(pos as int) =~= v);
        }
    }

    /// Whether `name` can name a new configuration: no white space around
    /// it, not empty, and not taken once its extension is removed.
    pub fn is_valid_create(&self, name: &str) -> (r: bool)
        ensures
            r == (!(name@.len() > 0 && (crate::text::is_whitespace(name@[0]) || crate::text::is_whitespace(name@.last())))
                && name@.len() > 0 && count_name(self.data@, without_toml(name@)) == 0),
    {
        if has_outer_whitespace(name) || name.unicode_len() == 0 {
            return false;
        }
        !self.contains(name)
    }

    /// The names found in a directory, ordered as `from_names` orders them,
    /// when `lexical_sort` can compare them all; nothing otherwise.
    pub fn checked_from_names(names: Vec<String>) -> (r: Option<Self>)
        ensures
            r is Some <==> pairwise_comparable(names@),
            r matches Some(c) ==> c.data@.to_multiset() == names@.to_multiset() && forall|i: int|
                0 <= i < c.data@.len() - 1 ==> in_order(#[trigger] c.data@[i]@, c.data@[i + 1]@),
    {
        if pairwise_naturally_comparable(&names) {
            Some(Self::from_names(names))
        } else {
            None
        }
    }

    /// The configurations of a directory, from its files: each file's name
    /// and whether its content reads as a configuration. The files that read
    /// as one, but the settings and hardware files, give their names without
    /// `.toml`, which are ordered as `from_names` orders them; nothing when
    /// `lexical_sort` cannot compare two of them.
    pub fn from_files(files: Vec<(String, bool)>) -> (r: Option<Self>)
        ensures
            r is Some <==> pairwise_comparable_texts(config_file_names(files@)),
            r matches Some(c) ==> exists|names: Seq<String>|
                texts_of(names) == config_file_names(files@) && #[trigger] names.to_multiset()
                    == c.data@.to_multiset(),
            r matches Some(c) ==> forall|i: int|
                0 <= i < c.data@.len() - 1 ==> in_order(#[trigger] c.data@[i]@, c.data@[i + 1]@),
    {
        let mut names: Vec<String> = Vec::new();
        let mut i: usize = 0;
        proof {
            assert(texts_of(names@) =~= config_file_names(files@.take(0)));
        }
        while i < files.len()
            invariant
                i <= files@.len(),
                texts_of(names@) == config_file_names(files@.take(i as int)),
            decreases files@.len() - i,
        {
            proof {
                assert(files@.take(i + 1).drop_last() =~= files@.take(i as int));
            }
            if files[i].1 {
                if let Some(n) = config_name_of(files[i].0.as_str()) {
                    let ghost before = names@;
                    names.push(n);
                    proof {
                        assert(texts_of(names@) =~= texts_of(before).push(n@));
                    }
                }
            }
            i = i + 1;
        }
        proof {
            assert(files@.take(files@.len() as int) =~= files@);
            lemma_pairwise_texts(names@);
        }
        Self::checked_from_names(names)
    }

    /// Adds `name` as `add` does when `lexical_sort` can compare it with every
    /// name of the list, and tells whether it did; otherwise nothing changes.
    pub fn checked_add(&mut self, name: &str) -> (r: bool)
        ensures
            r == comparable_with(without_toml(name@), old(self).data@),
            r ==> name_inserted(old(self).data@, final(self).data@, name@),
            !r ==> final(self).data@ == old(self).data@,
    {
        if comparable_with_all(remove_toml_extension(name), &self.data) {
            self.add(name);
            true
        } else {
            false
        }
    }

    /// Whether a configuration is named `name` (without its extension).
    pub fn contains(&self, name: &str) -> (r: bool)
        ensures
            r == (count_name(self.data@, without_toml(name@)) > 0),
    {
        let name = remove_toml_extension(name);
        match index_of_name(&self.data, name) {
            Some(i) => {
                proof {
                    lemma_count_positive(self.data@, name@, i as int);
                }
                true
            },
            None => {
                proof {
                    lemma_count_zero(self.data@, name@);
                }
                false
            },
        }
    }

    pub fn names(&self) -> (r: &Vec<String>)
        ensures
            r == &self.data,
    {
        &self.data
    }

    /// The position of the first configuration named `name` (without its extension).
    pub fn index_of(&self, name: &str) -> (r: Option<usize>)
        ensures
            match r {
                Some(i) => i < self.data@.len() && self.data@[i as int]@ == without_toml(name@) && forall|j: int|
                    0 <= j < i ==> self.data@[j]@ != without_toml(name@),
                None => forall|j: int| 0 <= j < self.data@.len() ==> self.data@[j]@ != without_toml(name@),
            },
    {
        let name = remove_toml_extension(name);
        index_of_name(&self.data, name)
    }

    /// Whether `new_name` can rename the configuration `previous_name`: no
    /// white space around it, not empty, and, once extensions are removed,
    /// taken by no configuration, or only by the one renamed.
    pub fn is_valid_name(&self, previous_name: &Option<String>, new_name: &str) -> (r: bool)
        ensures
            r == (!(new_name@.len() > 0 && (crate::text::is_whitespace(new_name@[0]) || crate::text::is_whitespace(new_name@.last())))
                && new_name@.len() > 0 && (count_name(self.data@, without_toml(new_name@)) == 0 || (
            count_name(self.data@, without_toml(new_name@)) == 1 && match previous_name {
                Some(p) => without_toml(p@) == without_toml(new_name@),
                None => false,
            }))),
    {
        if has_outer_whitespace(new_name) || new_name.unicode_len() == 0 {
            return false;
        }
        let new_name = remove_toml_extension(new_name);
        let is_same_name = match previous_name {
            Some(previous_name) => {
                let previous_name = remove_toml_extension(previous_name.as_str());
                str_equal(previous_name, new_name)
            },
            None => false,
        };
        let nb = count_of_name(&self.data, new_name);
        nb == 0 || (nb == 1 && is_same_name)
    }

    pub fn is_empty(&self) -> (r: bool)
        ensures
            r == (self.data@.len() == 0),
    {
        self.data.len() == 0
    }
}

/// The comparison of `name` with the names of `v` does not decrease along `v`.
pub open spec fn natural_search_sorted(name: Seq<char>, v: Seq<String>) -> bool {
    forall|i: int, j: int|
        0 <= i <= j < v.len() ==> natural_lexical_order(name, #[trigger] v[i]@) <= natural_lexical_order(
            name,
            #[trigger] v[j]@,
        )
}

/// Whether two texts are equal.
fn str_equal(a: &str, b: &str) -> (r: bool)
    ensures
        r == (a@ == b@),
{
    let n = a.unicode_len();
    if n != b.unicode_len() {
        return false;
    }
    let mut i: usize = 0;
    while i < n
        invariant
            n == a@.len(),
            n == b@.len(),
            i <= n,
            forall|k: int| 0 <= k < i ==> a@[k] == b@[k],
        decreases n - i,
    {
        if a.get_char(i) != b.get_char(i) {
            return false;
        }
        i = i + 1;
    }
    proof {
        assert(a@ =~= b@);
    }
    true
}

/// The position of the first name of `v` equal to `name`.
fn index_of_name(v: &Vec<String>, name: &str) -> (r: Option<usize>)
    ensures
        match r {
            Some(i) => i < v@.len() && v@[i as int]@ == name@ && forall|j: int| 0 <= j < i ==> v@[j]@ != name@,
            None => forall|j: int| 0 <= j < v@.len() ==> v@[j]@ != name@,
        },
{
    let mut i: usize = 0;
    while i < v.len()
        invariant
            i <= v@.len(),
            forall|j: int| 0 <= j < i ==> v@[j]@ != name@,
        decreases v@.len() - i,
    {
        if str_equal(v[i].as_str(), name) {
            return Some(i);
        }
        i = i + 1;
    }
    None
}

/// How many names of `v` are `name`.
fn count_of_name(v: &Vec<String>, name: &str) -> (r: usize)
    ensures
        r == count_name(v@, name@),
{
    let mut i: usize = 0;
    let mut n: usize = 0;
    while i < v.len()
        invariant
            i <= v@.len(),
            n == count_name(v@.take(i as int), name@),
            n <= i,
        decreases v@.len() - i,
    {
        proof {
            assert(v@.take(i + 1).drop_last() =~= v@.take(i as int));
        }
        if str_equal(v[i].as_str(), name) {
            n = n + 1;
        }
        i = i + 1;
    }
    proof {
        assert(v@.take(v@.len() as int) =~= v@);
    }
    n
}

proof fn lemma_count_zero(v: Seq<String>, name: Seq<char>)
    requires
        forall|j: int| 0 <= j < v.len() ==> v[j]@ != name,
    ensures
        count_name(v, name) == 0,
    decreases v.len(),
{
    if v.len() > 0 {
        lemma_count_zero(v.drop_last(), name);
    }
}

proof fn lemma_count_positive(v: Seq<String>, name: Seq<char>, i: int)
    requires
        0 <= i < v.len(),
        v[i]@ == name,
    ensures
        count_name(v, name) > 0,
    decreases v.len(),
{
    if i < v.len() - 1 {
        lemma_count_positive(v.drop_last(), name, i);
    }
}

/// The names that `v` holds, as text.
pub open spec fn name_texts(v: Seq<String>) -> Seq<Seq<char>> {
    v.map_values(|s: String| s@)
}

proof fn lemma_count_multiset(v: Seq<String>, name: Seq<char>)
    ensures
        count_name(v, name) == name_texts(v).to_multiset().count(name),
    decreases v.len(),
{
    broadcast use vstd::seq_lib::to_multiset_build;
    broadcast use vstd::multiset::group_multiset_axioms;

    if v.len() == 0 {
        vstd::seq_lib::to_multiset_contains(name_texts(v), name);
    } else {
        lemma_count_multiset(v.drop_last(), name);
        assert(name_texts(v) =~= name_texts(v.drop_last()).push(v.last()@));
    }
}

/// A name added to the list is found in it once more than before; every
/// other name is found as often as before.
pub proof fn lemma_added_name_found(v0: Seq<String>, v1: Seq<String>, name: Seq<char>)
    requires
        exists|p: int|
            0 <= p <= v0.len() && v1.len() == v0.len() + 1 && v1[p]@ == without_toml(name) && v1.remove(p)
                == v0,
    ensures
        count_name(v1, without_toml(name)) == count_name(v0, without_toml(name)) + 1,
        forall|n: Seq<char>| n != without_toml(name) ==> count_name(v1, n) == count_name(v0, n),
{
    broadcast use vstd::seq_lib::to_multiset_remove;
    broadcast use vstd::multiset::group_multiset_axioms;

    let p = choose|p: int|
        0 <= p <= v0.len() && v1.len() == v0.len() + 1 && v1[p]@ == without_toml(name) && v1.remove(p)
            == v0;
    assert(name_texts(v1).remove(p) =~= name_texts(v0));
    assert(name_texts(v1)[p] == without_toml(name));
    assert(name_texts(v1).remove(p).to_multiset() == name_texts(v1).to_multiset().remove(without_toml(name)));
    vstd::seq_lib::to_multiset_contains(name_texts(v1), without_toml(name));
    assert forall|n: Seq<char>| true implies count_name(v1, n) == count_name(v0, n) + if n == without_toml(name) {
        1int
    } else {
        0int
    } by {
        lemma_count_multiset(v0, n);
        lemma_count_multiset(v1, n);
    }
}

/// A name removed from a list where it stood at most once is no longer
/// found in it; every other name is found as often as before.
pub proof fn lemma_removed_name_gone(v0: Seq<String>, v1: Seq<String>, name: Seq<char>)
    requires
        count_name(v0, without_toml(name)) <= 1,
        count_name(v0, without_toml(name)) == 0 ==> v1 == v0,
        count_name(v0, without_toml(name)) > 0 ==> exists|i: int|
            0 <= i < v0.len() && v0[i]@ == without_toml(name) && v1 == v0.remove(i),
    ensures
        count_name(v1, without_toml(name)) == 0,
        forall|n: Seq<char>| n != without_toml(name) ==> count_name(v1, n) == count_name(v0, n),
{
    broadcast use vstd::seq_lib::to_multiset_remove;
    broadcast use vstd::multiset::group_multiset_axioms;

    if count_name(v0, without_toml(name)) > 0 {
        let i = choose|i: int| 0 <= i < v0.len() && v0[i]@ == without_toml(name) && v1 == v0.remove(i);
        assert(name_texts(v0).remove(i) =~= name_texts(v1));
        assert(name_texts(v0)[i] == without_toml(name));
        assert(name_texts(v0).remove(i).to_multiset() == name_texts(v0).to_multiset().remove(without_toml(name)));
        vstd::seq_lib::to_multiset_contains(name_texts(v0), without_toml(name));
        assert forall|n: Seq<char>| true implies count_name(v1, n) == count_name(v0, n) - if n == without_toml(name) {
            1int
        } else {
            0int
        } by {
            lemma_count_multiset(v0, n);
            lemma_count_multiset(v1, n);
        }
    }
}

/// `d1` is `d0` saved under `new_name` in place of `previous`: the list
/// loses `previous` and gains `new_name`, which becomes the current
/// configuration; nothing else changes.
pub open spec fn saved_as(d0: DirManager, d1: DirManager, previous: Seq<char>, new_name: Seq<char>) -> bool {
    &&& exists|mid: Seq<String>|
        name_removed(d0.config_names.data@, mid, previous) && name_inserted(mid, d1.config_names.data@, new_name)
    &&& d1.settings.current_config matches Some(n) && n@ == new_name
    &&& d1.settings == (Settings { current_config: d1.settings.current_config, ..d0.settings })
    &&& d1.config_dir_path == d0.config_dir_path
    &&& d1.state_dir_path == d0.state_dir_path
    &&& d1.state == d0.state
}

/// The state of the configuration directory: where it is, the names of its
/// configurations, the settings and the remembered state.
pub struct DirManager {
    pub config_dir_path: String,
    pub state_dir_path: String,
    pub config_names: ConfigNames,
    pub settings: Settings,
    pub state: SettingsState,
}

impl DirManager {
    pub fn new(
        config_dir_path: String,
        state_dir_path: String,
        config_names: ConfigNames,
        settings: Settings,
        state: SettingsState,
    ) -> (r: Self)
        ensures
            r.config_dir_path == config_dir_path,
            r.state_dir_path == state_dir_path,
            r.config_names == config_names,
            r.settings == settings,
            r.state == state,
    {
        DirManager { config_dir_path, state_dir_path, config_names, settings, state }
    }

    /// The directory manager of a configuration directory, from the
    /// directory's files, each named and told whether it reads as a
    /// configuration, the settings read and the configuration asked for at
    /// start, if any: the configurations are ordered as `ConfigNames::from_files`
    /// orders them and the one asked for is chosen among them. Nothing when
    /// `lexical_sort` cannot compare two of the names.
    pub fn from_directory(
        config_dir_path: String,
        state_dir_path: String,
        files: Vec<(String, bool)>,
        settings: Settings,
        state: SettingsState,
        custom_config_name: &Option<String>,
    ) -> (r: Option<Self>)
        ensures
            r is Some <==> pairwise_comparable_texts(config_file_names(files@)),
            r matches Some(d) ==> {
                &&& d.config_dir_path == config_dir_path
                &&& d.state_dir_path == state_dir_path
                &&& d.state == state
                &&& exists|names: Seq<String>|
                    texts_of(names) == config_file_names(files@) && #[trigger] names.to_multiset()
                        == d.config_names.data@.to_multiset()
                &&& forall|i: int|
                    0 <= i < d.config_names.data@.len() - 1 ==> in_order(
                        #[trigger] d.config_names.data@[i]@,
                        d.config_names.data@[i + 1]@,
                    )
                &&& requested_selected(settings, d.settings, d.config_names.data@, *custom_config_name)
            },
    {
        match ConfigNames::from_files(files) {
            Some(config_names) => {
                let mut settings = settings;
                select_requested_config(&mut settings, &config_names, custom_config_name);
                Some(DirManager::new(config_dir_path, state_dir_path, config_names, settings, state))
            },
            None => None,
        }
    }

    pub fn settings(&self) -> (r: &Settings)
        ensures
            *r == self.settings,
    {
        &self.settings
    }

    pub fn state(&self) -> (r: &SettingsState)
        ensures
            *r == self.state,
    {
        &self.state
    }

    /// Makes `new_config_name` the current configuration, `loaded` being
    /// what reading its file gave: on success its name and configuration are
    /// returned, else the error is and the settings are unchanged. With no
    /// name, no configuration is current.
    pub fn change_config(
        &mut self,
        new_config_name: Option<String>,
        loaded: Option<Result<Config, ConfigError>>,
    ) -> (r: Result<Option<(String, Config)>, ConfigError>)
        requires
            new_config_name.is_some() == loaded.is_some(),
        ensures
            final(self).config_names == old(self).config_names,
            final(self).state == old(self).state,
            new_config_name.is_none() ==> (r matches Ok(None)) && final(self).settings == (Settings {
                current_config: None,
                ..old(self).settings
            }),
            new_config_name matches Some(n) ==> match loaded.unwrap() {
                Ok(c) => (r matches Ok(Some((n2, c2))) && n2 == n && c2 == c) && final(self).settings == (Settings {
                    current_config: Some(n),
                    ..old(self).settings
                }),
                Err(e) => r == Err::<Option<(String, Config)>, ConfigError>(e) && final(self).settings == old(self).settings,
            },
    {
        match new_config_name {
            Some(new_config_name) => match loaded {
                Some(Ok(config)) => {
                    self.settings.current_config = Some(new_config_name.clone());
                    Ok(Some((new_config_name, config)))
                },
                Some(Err(e)) => Err(e),
                None => Err(ConfigError::NoName),
            },
            None => {
                self.settings.current_config = None;
                Ok(None)
            },
        }
    }

    /// Records the new configuration `new_config_name` once `written` tells
    /// that its file was written: its name joins the list and it becomes the
    /// current configuration. A failed write is returned and nothing changes.
    pub fn create_config(&mut self, new_config_name: &str, written: Result<(), ConfigError>) -> (r: Result<(), ConfigError>)
        requires
            comparable_with(without_toml(new_config_name@), old(self).config_names.data@),
        ensures
            written is Err ==> r == written && *final(self) == *old(self),
            written is Ok ==> r is Ok && final(self).config_names.data@.len() == old(self).config_names.data@.len() + 1
                && count_name(final(self).config_names.data@, without_toml(new_config_name@)) > 0
                && (final(self).settings.current_config matches Some(n) && n@ == new_config_name@),
    {
        if let Err(e) = written {
            return Err(e);
        }
        self.config_names.add(new_config_name);
        proof {
            lemma_added_name_found(old(self).config_names.data@, self.config_names.data@, new_config_name@);
        }
        self.settings.current_config = Some(String::from_str(new_config_name));
        Ok(())
    }

    /// Records the new configuration as `create_config` does when
    /// `lexical_sort` can compare its name with every name of the list;
    /// nothing otherwise, and nothing changes.
    pub fn checked_create_config(&mut self, new_config_name: &str, written: Result<(), ConfigError>) -> (r: Option<
        Result<(), ConfigError>,
    >)
        ensures
            r is Some <==> comparable_with(without_toml(new_config_name@), old(self).config_names.data@),
            r is None ==> *final(self) == *old(self),
            r matches Some(res) ==> (written is Err ==> res == written && *final(self) == *old(self)) && (written is Ok
                ==> res is Ok && final(self).config_names.data@.len() == old(self).config_names.data@.len() + 1
                && count_name(final(self).config_names.data@, without_toml(new_config_name@)) > 0 && (final(self).settings.current_config matches Some(n) && n@ == new_config_name@)),
    {
        if comparable_with_all(remove_toml_extension(new_config_name), &self.config_names.data) {
            Some(self.create_config(new_config_name, written))
        } else {
            None
        }
    }

    /// Saves the current configuration under `new_name` once `written`
    /// tells that its file was written: the name of the current configuration
    /// leaves the list, `new_name` joins it and becomes the current one.
    /// Without a current configuration there is no name to save under; a
    /// failed write is returned; in both cases nothing changes.
    pub fn save_config(&mut self, new_name: &str, written: Result<(), ConfigError>) -> (r: Result<(), ConfigError>)
        requires
            old(self).settings.current_config matches Some(p) ==> comparable_once_removed(
                old(self).config_names.data@,
                p@,
                without_toml(new_name@),
            ),
        ensures
            old(self).settings.current_config is None ==> r == Err::<(), ConfigError>(ConfigError::NoName) && *final(self)
                == *old(self),
            old(self).settings.current_config is Some && written is Err ==> r == written && *final(self) == *old(self),
            written is Ok ==> (old(self).settings.current_config matches Some(p) ==> saved_as(
                *old(self),
                *final(self),
                p@,
                new_name@,
            ) && r is Ok),
    {
        let previous = match &self.settings.current_config {
            Some(p) => p.clone(),
            None => {
                return Err(ConfigError::NoName);
            },
        };
        if let Err(e) = written {
            return Err(e);
        }
        let ghost v0 = self.config_names.data@;
        self.config_names.remove(previous.as_str());
        let ghost mid = self.config_names.data@;
        proof {
            assert(name_removed(v0, mid, previous@));
        }
        self.config_names.add(new_name);
        self.settings.current_config = Some(String::from_str(new_name));
        proof {
            assert(name_removed(v0, mid, previous@));
        }
        Ok(())
    }

    /// Saves as `save_config` does when `lexical_sort` can compare `new_name`
    /// with every name of the list; nothing otherwise, and nothing changes.
    pub fn checked_save_config(&mut self, new_name: &str, written: Result<(), ConfigError>) -> (r: Option<
        Result<(), ConfigError>,
    >)
        ensures
            r is Some <==> (old(self).settings.current_config matches Some(p) ==> comparable_once_removed(
                old(self).config_names.data@,
                p@,
                without_toml(new_name@),
            )),
            r is None ==> *final(self) == *old(self),
            r matches Some(res) ==> (old(self).settings.current_config is None ==> res == Err::<(), ConfigError>(
                ConfigError::NoName,
            ) && *final(self) == *old(self)) && (old(self).settings.current_config is Some && written is Err ==> res
                == written && *final(self) == *old(self)) && (written is Ok ==> (old(self).settings.current_config matches Some(
                p,
            ) ==> saved_as(*old(self), *final(self), p@, new_name@) && res is Ok)),
    {
        let comparable = match &self.settings.current_config {
            Some(p) => comparable_with_rest(remove_toml_extension(new_name), &self.config_names.data, p.as_str()),
            None => true,
        };
        if comparable {
            Some(self.save_config(new_name, written))
        } else {
            None
        }
    }

    /// Removes the configuration `config_name` from the list, and tells
    /// whether it was the current one, which then there is no more.
    pub fn remove_config(&mut self, config_name: &str) -> (r: bool)
        ensures
            name_removed(old(self).config_names.data@, final(self).config_names.data@, config_name@),
            r == (old(self).settings.current_config matches Some(c) && c@ == config_name@),
            final(self).settings == (if r {
                Settings { current_config: None, ..old(self).settings }
            } else {
                old(self).settings
            }),
            final(self).config_dir_path == old(self).config_dir_path,
            final(self).state_dir_path == old(self).state_dir_path,
            final(self).state == old(self).state,
    {
        self.config_names.remove(config_name);
        let is_current = match &self.settings.current_config {
            Some(c) => same_text(c.as_str(), config_name),
            None => false,
        };
        if is_current {
            self.settings.current_config = None;
        }
        is_current
    }

    /// The settings, to change in place.
    pub fn settings_mut(&mut self) -> (r: &mut Settings)
        ensures
            *r == old(self).settings,
            *final(self) == (DirManager { settings: *final(r), ..*old(self) }),
    {
        &mut self.settings
    }

    /// The remembered state, to change in place.
    pub fn state_mut(&mut self) -> (r: &mut SettingsState)
        ensures
            *r == old(self).state,
            *final(self) == (DirManager { state: *final(r), ..*old(self) }),
    {
        &mut self.state
    }
}

/// The configuration directory to use: a given path, unless it exists and
/// is not a directory (then the default one); the default one when none is given.
pub fn choose_config_dir(custom: &Option<String>, exists: bool, is_dir: bool, default_dir: String) -> (r: String)
    ensures
        match custom {
            Some(p) => r == (if exists && !is_dir {
                default_dir
            } else {
                *p
            }),
            None => r == default_dir,
        },
{
    match custom {
        Some(p) => {
            if exists && !is_dir {
                default_dir
            } else {
                p.clone()
            }
        },
        None => default_dir,
    }
}

/// `after` is `before` once the configuration `requested` asks for, if any,
/// is chosen among `names`: the requested name without its extension when a
/// configuration has that name, none when no configuration has it; the rest
/// of the settings unchanged.
pub open spec fn requested_selected(
    before: Settings,
    after: Settings,
    names: Seq<String>,
    requested: Option<String>,
) -> bool {
    match requested {
        None => after == before,
        Some(n) => {
            &&& count_name(names, without_toml(without_toml(n@))) > 0 ==> (after.current_config matches Some(c)
                && c@ == without_toml(n@))
            &&& count_name(names, without_toml(without_toml(n@))) == 0 ==> after.current_config.is_none()
            &&& after.theme == before.theme
            &&& after.update_delay == before.update_delay
            &&& after.start_at_login == before.start_at_login
            &&& after.inactive == before.inactive
        },
    }
}

/// Applies a configuration asked for on the command line: its name without
/// extension becomes current if the list holds it (the list is searched
/// with the extension removed once more), else no configuration is
/// current. With none asked for, the settings are unchanged.
pub fn select_requested_config(
    settings: &mut Settings,
    config_names: &ConfigNames,
    custom_config_name: &Option<String>,
)
    ensures
        requested_selected(*old(settings), *final(settings), config_names.data@, *custom_config_name),
{
    if let Some(name) = custom_config_name {
        let name = remove_toml_extension(name.as_str());
        settings.current_config = if config_names.contains(name) {
            Some(String::from_str(name))
        } else {
            None
        };
    }
}

} // verus!
