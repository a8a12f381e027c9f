//! Literal substring replacement, the irregular-spelling table, snake_case
//! conversion and the choice of rename pairs.
use vstd::prelude::*;

use convert_case::{Case, Casing};

verus! {

/// `s` with every non-overlapping occurrence of `pat`, found left to right,
/// replaced by `rep`.
pub open spec fn replace_all(s: Seq<char>, pat: Seq<char>, rep: Seq<char>) -> Seq<char>
    decreases s.len(),
{
    if pat.len() == 0 || s.len() < pat.len() {
        s
    } else if s.subrange(0, pat.len() as int) == pat {
        rep + replace_all(s.subrange(pat.len() as int, s.len() as int), pat, rep)
    } else {
        seq![s[0]] + replace_all(s.subrange(1, s.len() as int), pat, rep)
    }
}

/// Whether `pat` occurs in `s` starting at index `i`.
pub open spec fn occurs_at(s: Seq<char>, i: int, pat: Seq<char>) -> bool {
    0 <= i && i + pat.len() <= s.len() && s.subrange(i, i + pat.len()) == pat
}

fn matches_at(s: &str, n: usize, i: usize, pat: &str, m: usize) -> (r: bool)
    requires
        n == s@.len(),
        m == pat@.len(),
        i <= n,
    ensures
        r == occurs_at(s@, i as int, pat@),
{
    if m > n - i {
        return false;
    }
    let mut k: usize = 0;
    while k < m
        invariant
            n == s@.len(),
            m == pat@.len(),
            i + m <= n,
            k <= m,
            forall|j: int| 0 <= j < k ==> s@[i + j] == pat@[j],
        decreases m - k,
    {
        if s.get_char(i + k) != pat.get_char(k) {
            assert(s@.subrange(i as int, i + m)[k as int] != pat@[k as int]);
            return false;
        }
        k = k + 1;
    }
    assert(s@.subrange(i as int, i + m) =~= pat@);
    true
}

proof fn lemma_replace_step(s: Seq<char>, i: int, pat: Seq<char>, rep: Seq<char>)
    requires
        pat.len() > 0,
        0 <= i <= s.len(),
    ensures
        i + pat.len() > s.len() ==> replace_all(s.subrange(i, s.len() as int), pat, rep)
            == s.subrange(i, s.len() as int),
        occurs_at(s, i, pat) ==> replace_all(s.subrange(i, s.len() as int), pat, rep) == rep
            + replace_all(s.subrange(i + pat.len(), s.len() as int), pat, rep),
        i + pat.len() <= s.len() && !occurs_at(s, i, pat) ==> replace_all(
            s.subrange(i, s.len() as int),
            pat,
            rep,
        ) == seq![s[i]] + replace_all(s.subrange(i + 1, s.len() as int), pat, rep),
{
    let t = s.subrange(i, s.len() as int);
    if i + pat.len() <= s.len() {
        assert(t.subrange(0, pat.len() as int) =~= s.subrange(i, i + pat.len()));
        assert(t.subrange(pat.len() as int, t.len() as int) =~= s.subrange(
            i + pat.len(),
            s.len() as int,
        ));
        assert(t.subrange(1, t.len() as int) =~= s.subrange(i + 1, s.len() as int));
    }
}

/// Replaces every occurrence of `pat` in `s` by `rep`, as `str::replace`
/// does for a non-empty pattern.
pub fn replace_literal(s: &str, pat: &str, rep: &str) -> (r: String)
    requires
        pat@.len() > 0,
    ensures
        r@ == replace_all(s@, pat@, rep@),
{
    let n = s.unicode_len();
    let m = pat.unicode_len();
    let mut out = String::new();
    let mut start: usize = 0;
    let mut i: usize = 0;
    assert(s@.subrange(0, n as int) =~= s@);
    assert(out@ + s@.subrange(0, 0) =~= Seq::<char>::empty());
    while i < n
        invariant
            n == s@.len(),
            m == pat@.len(),
            m > 0,
            start <= i <= n,
            out@ + s@.subrange(start as int, i as int) + replace_all(
                s@.subrange(i as int, n as int),
                pat@,
                rep@,
            ) == replace_all(s@, pat@, rep@),
        decreases n - i,
    {
        proof {
            lemma_replace_step(s@, i as int, pat@, rep@);
        }
        if matches_at(s, n, i, pat, m) {
            let seg = s.substring_char(start, i);
            out.append(seg);
            out.append(rep);
            i = i + m;
            start = i;
            assert(s@.subrange(start as int, i as int) =~= Seq::<char>::empty());
        } else if m > n - i {
            assert(s@.subrange(start as int, n as int) =~= s@.subrange(start as int, i as int)
                + s@.subrange(i as int, n as int));
            assert(s@.subrange(n as int, n as int) =~= Seq::<char>::empty());
            assert(replace_all(Seq::<char>::empty(), pat@, rep@) == Seq::<char>::empty());
            assert(out@ + s@.subrange(start as int, n as int) + replace_all(
                s@.subrange(n as int, n as int), pat@, rep@) =~= out@ + s@.subrange(start as int, i as int)
                + s@.subrange(i as int, n as int));
            i = n;
        } else {
            assert(s@.subrange(start as int, i + 1) =~= s@.subrange(start as int, i as int)
                + seq![s@[i as int]]);
            i = i + 1;
        }
    }
    proof {
        lemma_replace_step(s@, n as int, pat@, rep@);
    }
    let seg = s.substring_char(start, n);
    out.append(seg);
    assert(s@.subrange(n as int, n as int) =~= Seq::<char>::empty());
    assert(out@ =~= out@ + replace_all(Seq::<char>::empty(), pat@, rep@));
    out
}

/// The irregular-spelling table, in the order its entries are applied:
/// an all-caps protocol name and two abbreviations that case conversion
/// would otherwise split badly.
pub open spec fn irregular_table() -> Seq<(Seq<char>, Seq<char>)> {
    seq![("MQTT"@, "Mqtt"@), ("selfIP"@, "selfIp"@), ("newSN"@, "newSerialNumber"@)]
}

/// `s` after each entry of `table`, in order, has been applied as a literal
/// replacement.
pub open spec fn apply_table(s: Seq<char>, table: Seq<(Seq<char>, Seq<char>)>) -> Seq<char>
    decreases table.len(),
{
    if table.len() == 0 {
        s
    } else {
        apply_table(replace_all(s, table[0].0, table[0].1), table.drop_first())
    }
}

/// A name with the irregular-spelling table applied.
pub open spec fn fixed_irregulars(name: Seq<char>) -> Seq<char> {
    apply_table(name, irregular_table())
}

/// Applies the irregular-spelling table to `name`, entry after entry.
pub fn fix_irregulars(name: &str) -> (r: String)
    ensures
        r@ == fixed_irregulars(name@),
{
    proof {
        reveal_strlit("MQTT");
        reveal_strlit("selfIP");
        reveal_strlit("newSN");
    }
    let a = replace_literal(name, "MQTT", "Mqtt");
    let b = replace_literal(a.as_str(), "selfIP", "selfIp");
    let c = replace_literal(b.as_str(), "newSN", "newSerialNumber");
    proof {
        let t = irregular_table();
        assert(t.drop_first().drop_first().drop_first() =~= Seq::<(Seq<char>, Seq<char>)>::empty());
        assert(t.drop_first()[0] == t[1]);
        assert(t.drop_first().drop_first()[0] == t[2]);
        reveal_with_fuel(apply_table, 4);
    }
    c
}

/// What snake_case conversion makes of `s`.
pub uninterp spec fn snake_case_of(s: Seq<char>) -> Seq<char>;

/// Whether `c` is one of `A` to `Z`.
pub open spec fn is_ascii_upper(c: char) -> bool {
    'A' <= c && c <= 'Z'
}

/// Whether `s` holds an uppercase ASCII letter.
pub open spec fn has_ascii_upper(s: Seq<char>) -> bool {
    exists|i: int| 0 <= i < s.len() && is_ascii_upper(#[trigger] s[i])
}

/// Relies on `convert_case`'s `to_case(Case::Snake)`: the result depends on
/// the characters alone, and each word of it is lowered with
/// `str::to_lowercase` and joined with `_`, so no `A` to `Z` is left.
#[verifier::external_body]
fn to_snake_case(s: &str) -> (r: String)
    ensures
        r@ == snake_case_of(s@),
        !has_ascii_upper(r@),
{
    s.to_case(Case::Snake)
}

/// The snake_case spelling a name is renamed to.
pub open spec fn rename_target(name: Seq<char>) -> Seq<char> {
    snake_case_of(fixed_irregulars(name))
}

/// Applies the irregular-spelling table to `name`, then converts the result
/// to snake_case.
pub fn snake_name(name: &str) -> (r: String)
    ensures
        r@ == rename_target(name@),
        !has_ascii_upper(r@),
{
    let fixed = fix_irregulars(name);
    to_snake_case(fixed.as_str())
}

/// The character sequences of a list of strings.
pub open spec fn views(v: Seq<String>) -> Seq<Seq<char>> {
    v.map_values(|x: String| x@)
}

/// The character sequences of a list of string pairs.
pub open spec fn pair_views(v: Seq<(String, String)>) -> Seq<(Seq<char>, Seq<char>)> {
    v.map_values(|p: (String, String)| (p.0@, p.1@))
}

/// The names that hold an uppercase ASCII letter, in their order.
pub open spec fn uppercase_names(names: Seq<Seq<char>>) -> Seq<Seq<char>>
    decreases names.len(),
{
    if names.len() == 0 {
        names
    } else {
        let rest = uppercase_names(names.drop_last());
        if has_ascii_upper(names.last()) {
            rest.push(names.last())
        } else {
            rest
        }
    }
}

/// The pair (name, target) of each name whose target differs from it, in
/// the order of the names.
pub open spec fn deduced_pairs(names: Seq<Seq<char>>) -> Seq<(Seq<char>, Seq<char>)>
    decreases names.len(),
{
    if names.len() == 0 {
        seq![]
    } else {
        let rest = deduced_pairs(names.drop_last());
        let target = rename_target(names.last());
        if target == names.last() {
            rest
        } else {
            rest.push((names.last(), target))
        }
    }
}

/// The rename pairs chosen for a list of symbol names.
pub open spec fn rename_pairs(names: Seq<Seq<char>>) -> Seq<(Seq<char>, Seq<char>)> {
    deduced_pairs(uppercase_names(names))
}

/// Whether `name` holds an uppercase ASCII letter.
pub fn has_uppercase(name: &str) -> (r: bool)
    ensures
        r == has_ascii_upper(name@),
{
    let n = name.unicode_len();
    let mut i: usize = 0;
    while i < n
        invariant
            n == name@.len(),
            i <= n,
            forall|j: int| 0 <= j < i ==> !is_ascii_upper(#[trigger] name@[j]),
        decreases n - i,
    {
        let c = name.get_char(i);
        if 'A' <= c && c <= 'Z' {
            return true;
        }
        i = i + 1;
    }
    false
}

/// Keeps the names that hold an uppercase ASCII letter: the others are
/// taken to be snake_case already.
pub fn non_snake_names(names: Vec<String>) -> (r: Vec<String>)
    ensures
        views(r@) == uppercase_names(views(names@)),
{
    let mut out: Vec<String> = Vec::new();
    let mut i: usize = 0;
    while i < names.len()
        invariant
            i <= names@.len(),
            views(out@) == uppercase_names(views(names@.subrange(0, i as int))),
        decreases names.len() - i,
    {
        let name = &names[i];
        proof {
            let pre = views(names@.subrange(0, i as int + 1));
            assert(pre.drop_last() =~= views(names@.subrange(0, i as int)));
            assert(pre.last() == name@);
        }
        let ghost before = out@;
        if has_uppercase(name.as_str()) {
            out.push(name.clone());
            assert(views(out@) =~= views(before).push(name@));
        }
        i = i + 1;
    }
    assert(names@.subrange(0, names@.len() as int) =~= names@);
    out
}

/// Pairs each name with its snake_case target, dropping the names whose
/// target is the name itself.
pub fn deduce_new_names(names: Vec<String>) -> (r: Vec<(String, String)>)
    ensures
        pair_views(r@) == deduced_pairs(views(names@)),
        forall|k: int| 0 <= k < r@.len() ==> !has_ascii_upper(#[trigger] r@[k].1@),
{
    let mut out: Vec<(String, String)> = Vec::new();
    let mut i: usize = 0;
    while i < names.len()
        invariant
            i <= names@.len(),
            pair_views(out@) == deduced_pairs(views(names@.subrange(0, i as int))),
            forall|k: int| 0 <= k < out@.len() ==> !has_ascii_upper(#[trigger] out@[k].1@),
        decreases names.len() - i,
    {
        let name = &names[i];
        proof {
            let pre = views(names@.subrange(0, i as int + 1));
            assert(pre.drop_last() =~= views(names@.subrange(0, i as int)));
            assert(pre.last() == name@);
        }
        let new_name = snake_name(name.as_str());
        let ghost before = out@;
        if new_name != *name {
            out.push((name.clone(), new_name));
            assert(pair_views(out@) =~= pair_views(before).push((name@, rename_target(name@))));
        }
        i = i + 1;
    }
    assert(names@.subrange(0, names@.len() as int) =~= names@);
    out
}

/// Chooses the rename pairs for a list of symbol names: the names with an
/// uppercase ASCII letter, each paired with its snake_case target, leaving
/// out those whose target is unchanged. The pairs keep the order of the
/// names.
pub fn select_renames(names: Vec<String>) -> (r: Vec<(String, String)>)
    ensures
        pair_views(r@) == rename_pairs(views(names@)),
        forall|k: int| 0 <= k < r@.len() ==> !has_ascii_upper(#[trigger] r@[k].1@),
        rename_pairs(targets(pair_views(r@))) == Seq::<(Seq<char>, Seq<char>)>::empty(),
{
    let r = deduce_new_names(non_snake_names(names));
    proof {
        lemma_no_uppercase_no_renames(targets(pair_views(r@)));
    }
    r
}

/// The targets of a list of rename pairs.
pub open spec fn targets(pairs: Seq<(Seq<char>, Seq<char>)>) -> Seq<Seq<char>> {
    pairs.map_values(|p: (Seq<char>, Seq<char>)| p.1)
}

/// Whether the names never grow longer along the list.
pub open spec fn longest_first(names: Seq<Seq<char>>) -> bool {
    forall|i: int, j: int| 0 <= i < j < names.len() ==> names[i].len() >= names[j].len()
}

/// Whether the pairs' old names never grow longer along the list.
pub open spec fn pairs_longest_first(pairs: Seq<(Seq<char>, Seq<char>)>) -> bool {
    forall|i: int, j: int| 0 <= i < j < pairs.len() ==> pairs[i].0.len() >= pairs[j].0.len()
}

proof fn lemma_uppercase_names_facts(names: Seq<Seq<char>>)
    ensures
        forall|k: int|
            0 <= k < uppercase_names(names).len() ==> names.contains(
                #[trigger] uppercase_names(names)[k],
            ) && has_ascii_upper(uppercase_names(names)[k]),
        longest_first(names) ==> longest_first(uppercase_names(names)),
    decreases names.len(),
{
    if names.len() > 0 {
        let d = names.drop_last();
        lemma_uppercase_names_facts(d);
        let u = uppercase_names(d);
        assert forall|k: int| 0 <= k < u.len() implies names.contains(#[trigger] u[k]) by {
            let j = choose|j: int| 0 <= j < d.len() && d[j] == u[k];
            assert(names[j] == u[k]);
        }
        if longest_first(names) {
            assert(longest_first(d));
            assert forall|k: int| 0 <= k < u.len() implies #[trigger] u[k].len() >= names.last().len() by {
                let j = choose|j: int| 0 <= j < d.len() && d[j] == u[k];
                assert(names[j] == u[k]);
            }
        }
        if has_ascii_upper(names.last()) {
            assert(names.contains(names.last())) by {
                assert(names[names.len() - 1] == names.last());
            }
        }
    }
}

proof fn lemma_deduced_pairs_facts(names: Seq<Seq<char>>)
    ensures
        forall|k: int|
            0 <= k < deduced_pairs(names).len() ==> names.contains(
                (#[trigger] deduced_pairs(names)[k]).0,
            ),
        longest_first(names) ==> pairs_longest_first(deduced_pairs(names)),
    decreases names.len(),
{
    if names.len() > 0 {
        let d = names.drop_last();
        lemma_deduced_pairs_facts(d);
        let u = deduced_pairs(d);
        assert forall|k: int| 0 <= k < u.len() implies names.contains((#[trigger] u[k]).0) by {
            let j = choose|j: int| 0 <= j < d.len() && d[j] == u[k].0;
            assert(names[j] == u[k].0);
        }
        if longest_first(names) {
            assert(longest_first(d));
            assert forall|k: int| 0 <= k < u.len() implies (#[trigger] u[k]).0.len() >= names.last().len() by {
                let j = choose|j: int| 0 <= j < d.len() && d[j] == u[k].0;
                assert(names[j] == u[k].0);
            }
        }
        assert(names.contains(names.last())) by {
            assert(names[names.len() - 1] == names.last());
        }
    }
}

/// Rename pairs come out longest old name first whenever the names come in
/// longest first, so that no name is replaced before a longer one that
/// holds it.
pub proof fn lemma_renames_longest_first(names: Seq<Seq<char>>)
    requires
        longest_first(names),
    ensures
        pairs_longest_first(rename_pairs(names)),
{
    lemma_uppercase_names_facts(names);
    lemma_deduced_pairs_facts(uppercase_names(names));
}

/// The old name of every rename pair holds an uppercase ASCII letter.
pub proof fn lemma_renamed_names_have_uppercase(names: Seq<Seq<char>>)
    ensures
        forall|k: int|
            0 <= k < rename_pairs(names).len() ==> has_ascii_upper(
                (#[trigger] rename_pairs(names)[k]).0,
            ),
{
    let u = uppercase_names(names);
    lemma_uppercase_names_facts(names);
    lemma_deduced_pairs_facts(u);
    assert forall|k: int| 0 <= k < rename_pairs(names).len() implies has_ascii_upper(
        (#[trigger] rename_pairs(names)[k]).0,
    ) by {
        let j = choose|j: int| 0 <= j < u.len() && u[j] == rename_pairs(names)[k].0;
        assert(has_ascii_upper(u[j]));
    }
}

/// Names without an uppercase ASCII letter give no rename pair at all.
pub proof fn lemma_no_uppercase_no_renames(names: Seq<Seq<char>>)
    requires
        forall|k: int| 0 <= k < names.len() ==> !has_ascii_upper(#[trigger] names[k]),
    ensures
        rename_pairs(names) == Seq::<(Seq<char>, Seq<char>)>::empty(),
{
    lemma_uppercase_names_facts(names);
    let u = uppercase_names(names);
    if u.len() > 0 {
        let j = choose|j: int| 0 <= j < names.len() && names[j] == u[0];
        assert(has_ascii_upper(u[0]));
        assert(!has_ascii_upper(names[j]));
    }
    assert(u =~= Seq::<Seq<char>>::empty());
}

/// Whether `pat` occurs anywhere in `s`.
pub open spec fn contains_text(s: Seq<char>, pat: Seq<char>) -> bool {
    exists|i: int| #[trigger] occurs_at(s, i, pat)
}

proof fn lemma_literal_prefix(t: Seq<char>, pat: Seq<char>, rep: Seq<char>, j: int)
    requires
        pat.len() > 0,
        rep.len() > 0,
        0 <= j <= replace_all(t, pat, rep).len(),
        forall|k: int| 0 <= k < j ==> replace_all(t, pat, rep)[k] != rep[0],
    ensures
        j <= t.len(),
        replace_all(t, pat, rep).subrange(0, j) == t.subrange(0, j),
    decreases t.len(),
{
    let r = replace_all(t, pat, rep);
    if t.len() < pat.len() {
    } else if t.subrange(0, pat.len() as int) == pat {
        if j > 0 {
            assert(r[0] == rep[0]);
        }
        assert(r.subrange(0, 0) =~= t.subrange(0, 0));
    } else if j > 0 {
        let t1 = t.subrange(1, t.len() as int);
        let r1 = replace_all(t1, pat, rep);
        assert(r == seq![t[0]] + r1);
        assert forall|k: int| 0 <= k < j - 1 implies r1[k] != rep[0] by {
            assert(r[k + 1] == r1[k]);
        }
        lemma_literal_prefix(t1, pat, rep, j - 1);
        assert(r.subrange(0, j) =~= t.subrange(0, j)) by {
            assert forall|k: int| 0 <= k < j implies r.subrange(0, j)[k] == t.subrange(0, j)[k] by {
                if k > 0 {
                    assert(r1.subrange(0, j - 1)[k - 1] == t1.subrange(0, j - 1)[k - 1]);
                }
            }
        }
    } else {
        assert(r.subrange(0, 0) =~= t.subrange(0, 0));
    }
}

proof fn lemma_no_occurrence_left(s: Seq<char>, pat: Seq<char>, rep: Seq<char>)
    requires
        pat.len() >= 2,
        rep.len() >= 2,
        forall|k: int| 1 <= k < pat.len() ==> pat[k] != rep[0],
        forall|k: int| 1 <= k < rep.len() ==> rep[k] != pat[0],
        rep[1] != pat[1],
    ensures
        !contains_text(replace_all(s, pat, rep), pat),
    decreases s.len(),
{
    let r = replace_all(s, pat, rep);
    let m = pat.len() as int;
    if s.len() < pat.len() {
        assert forall|p: int| !(#[trigger] occurs_at(r, p, pat)) by {}
    } else if s.subrange(0, m) == pat {
        let s1 = s.subrange(m, s.len() as int);
        let r1 = replace_all(s1, pat, rep);
        lemma_no_occurrence_left(s1, pat, rep);
        assert(r == rep + r1);
        assert forall|p: int| !(#[trigger] occurs_at(r, p, pat)) by {
            if occurs_at(r, p, pat) {
                if p >= rep.len() {
                    assert(r1.subrange(p - rep.len(), p - rep.len() + m) =~= r.subrange(p, p + m));
                    assert(occurs_at(r1, p - rep.len(), pat));
                } else if p >= 1 {
                    assert(r.subrange(p, p + m)[0] == r[p]);
                } else {
                    assert(r.subrange(p, p + m)[1] == r[1]);
                }
            }
        }
    } else {
        let s1 = s.subrange(1, s.len() as int);
        let r1 = replace_all(s1, pat, rep);
        lemma_no_occurrence_left(s1, pat, rep);
        assert(r == seq![s[0]] + r1);
        assert forall|p: int| !(#[trigger] occurs_at(r, p, pat)) by {
            if occurs_at(r, p, pat) {
                if p >= 1 {
                    assert(r1.subrange(p - 1, p - 1 + m) =~= r.subrange(p, p + m));
                    assert(occurs_at(r1, p - 1, pat));
                } else {
                    assert forall|k: int| 0 <= k < m - 1 implies r1[k] != rep[0] by {
                        assert(r.subrange(0, m)[k + 1] == r1[k]);
                    }
                    lemma_literal_prefix(s1, pat, rep, m - 1);
                    assert(s.subrange(0, m) =~= pat) by {
                        assert forall|k: int| 0 <= k < m implies s.subrange(0, m)[k] == pat[k] by {
                            assert(r.subrange(0, m)[k] == pat[k]);
                            if k > 0 {
                                assert(r1.subrange(0, m - 1)[k - 1] == s1.subrange(0, m - 1)[k - 1]);
                            }
                        }
                    }
                }
            }
        }
    }
}

/// The protocol-acronym entry of the irregular-spelling table is a plain
/// literal replacement of every occurrence: however often `MQTT` stands in
/// a name, none is left after it.
pub proof fn lemma_acronym_fully_replaced(name: Seq<char>)
    ensures
        !contains_text(replace_all(name, "MQTT"@, "Mqtt"@), "MQTT"@),
{
    reveal_strlit("MQTT");
    reveal_strlit("Mqtt");
    lemma_no_occurrence_left(name, "MQTT"@, "Mqtt"@);
}

} // verus!
