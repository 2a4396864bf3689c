//! Links found in note text: the matches of a URL pattern, reduced to website names,
//! and resolved against the catalogue of named notes.
use vstd::prelude::*;
use vstd::std_specs::iter::IteratorSpec;
use crate::notes::{Name_Id, in_classify, cat_view, first_id, graph_from_catalogue, without};
use crate::graph::{LinkNode, graph_wf};

verus! {

/// The texts of the successive non-overlapping matches of `pattern` in `text`, or
/// none where `pattern` does not compile (it is not a valid expression, or it exceeds
/// the default size limit of a compiled expression).
pub uninterp spec fn regex_matches(pattern: Seq<char>, text: Seq<char>) -> Option<Seq<Seq<char>>>;

/// Relies on regex::Regex::new (an error where the pattern does not compile) and on
/// Regex::find_iter with Match::as_str: the matched texts, in order.
#[verifier::external_body]
fn find_matches(pattern: &str, text: &str) -> (r: Option<Vec<String>>)
    ensures
        r is None <==> regex_matches(pattern@, text@) is None,
        r matches Some(v) ==> regex_matches(pattern@, text@) == Some(views(v@)),
{
    match regex::Regex::new(pattern) {
        Ok(re) => Some(re.find_iter(text).map(|m| m.as_str().to_string()).collect()),
        Err(_) => None,
    }
}

/// The characters of the string, in order.
fn chars_of(s: &str) -> (r: Vec<char>)
    ensures
        r@ == s@,
{
    broadcast use vstd::string::axiom_spec_iter, vstd::string::next_postcondition;
    let mut it = s.chars();
    let mut out: Vec<char> = Vec::new();
    loop
        invariant
            out@ + it.remaining() == s@,
            it.obeys_prophetic_iter_laws(),
            it.decrease() is Some,
        ensures
            out@ == s@,
        decreases it.decrease()->0,
    {
        let ghost before = it.remaining();
        match it.next() {
            Some(c) => {
                out.push(c);
                assert(out@ + it.remaining() =~= s@) by {
                    assert(before =~= seq![c] + before.drop_first());
                }
            },
            None => {
                assert(out@ + Seq::<char>::empty() =~= out@);
                break;
            },
        }
    }
    out
}

/// Relies on String's FromIterator<&char>: the string of the characters, in order.
#[verifier::external_body]
fn string_of(v: &Vec<char>) -> (r: String)
    ensures
        r@ == v@,
{
    v.iter().collect()
}

/// `s` with every occurrence of `pat`, taken left to right without overlap, replaced
/// by `rep`.
pub open spec fn replace_all(s: Seq<char>, pat: Seq<char>, rep: Seq<char>) -> Seq<char>
    decreases s.len(),
{
    if pat.len() == 0 || s.len() < pat.len() {
        s
    } else if s.subrange(0, pat.len() as int) == pat {
        rep + replace_all(s.subrange(pat.len() as int, s.len() as int), pat, rep)
    } else {
        seq![s[0]] + replace_all(s.drop_first(), pat, rep)
    }
}

/// `s` up to the first `c`, or all of `s` where there is none.
pub open spec fn take_until(s: Seq<char>, c: char) -> Seq<char>
    decreases s.len(),
{
    if s.len() == 0 {
        s
    } else if s[0] == c {
        Seq::empty()
    } else {
        seq![s[0]] + take_until(s.drop_first(), c)
    }
}

/// The index of the last `.` of `s`, or -1.
pub open spec fn last_dot(s: Seq<char>) -> int
    decreases s.len(),
{
    if s.len() == 0 {
        -1
    } else if s.last() == '.' {
        s.len() - 1
    } else {
        last_dot(s.drop_last())
    }
}

proof fn lemma_last_dot_range(s: Seq<char>)
    ensures
        -1 <= last_dot(s) < s.len(),
    decreases s.len(),
{
    if s.len() > 0 && s.last() != '.' {
        lemma_last_dot_range(s.drop_last());
    }
}

/// The host part of a URL: the scheme and any `www.` removed, up to the first `/`.
pub open spec fn domain_of(url: Seq<char>) -> Seq<char> {
    let e = Seq::<char>::empty();
    let a = replace_all(url, "https://"@, e);
    let b = replace_all(a, "http://"@, e);
    let c = replace_all(b, "www."@, e);
    take_until(c, '/')
}

/// The website name of a URL: the label before the last dot of its host, or the whole
/// host where it has no dot.
pub open spec fn website_name(url: Seq<char>) -> Seq<char> {
    let d = domain_of(url);
    let j = last_dot(d);
    if j < 0 {
        d
    } else {
        let pre = d.subrange(0, j);
        pre.subrange(last_dot(pre) + 1, j)
    }
}

/// The views of the strings.
pub open spec fn views(v: Seq<String>) -> Seq<Seq<char>> {
    v.map_values(|s: String| s@)
}

/// The website names of the URLs.
pub open spec fn names_of(urls: Seq<Seq<char>>) -> Seq<Seq<char>> {
    urls.map_values(|u: Seq<char>| website_name(u))
}

/// Whether `pat` occurs in `s` at `i`.
fn occurs_at(s: &Vec<char>, i: usize, pat: &Vec<char>) -> (r: bool)
    requires
        i <= s@.len(),
    ensures
        r == (i + pat@.len() <= s@.len() && s@.subrange(i as int, i + pat@.len()) == pat@),
{
    let m = s.len();
    if pat.len() > m - i {
        return false;
    }
    let mut k: usize = 0;
    while k < pat.len()
        invariant
            m == s@.len(),
            i + pat@.len() <= s@.len(),
            k <= pat@.len(),
            forall|j: int| 0 <= j < k ==> s@[i + j] == pat@[j],
        decreases pat@.len() - k,
    {
        assert(i + k < m);
        if s[i + k] != pat[k] {
            assert(s@.subrange(i as int, i + pat@.len())[k as int] != pat@[k as int]);
            return false;
        }
        k += 1;
    }
    assert(s@.subrange(i as int, i + pat@.len()) =~= pat@);
    true
}

/// `s` with every occurrence of `pat` replaced by `rep` (see `replace_all`).
fn replace_chars(s: &Vec<char>, pat: &Vec<char>, rep: &Vec<char>) -> (r: Vec<char>)
    requires
        pat@.len() > 0,
    ensures
        r@ == replace_all(s@, pat@, rep@),
{
    let n = s.len();
    let mut out: Vec<char> = Vec::new();
    let mut i: usize = 0;
    assert(s@.subrange(0, n as int) =~= s@);
    assert(out@ + s@ =~= s@);
    while i < n
        invariant
            n == s@.len(),
            pat@.len() > 0,
            i <= n,
            replace_all(s@, pat@, rep@) == out@ + replace_all(s@.subrange(i as int, n as int), pat@, rep@),
        decreases n - i,
    {
        let ghost rest = s@.subrange(i as int, n as int);
        if occurs_at(s, i, pat) {
            assert(rest.subrange(0, pat@.len() as int) =~= s@.subrange(i as int, i + pat@.len()));
            assert(rest.subrange(pat@.len() as int, rest.len() as int) =~= s@.subrange(i + pat@.len(), n as int));
            let ghost before = out@;
            let mut k: usize = 0;
            while k < rep.len()
                invariant
                    k <= rep@.len(),
                    out@ == before + rep@.subrange(0, k as int),
                decreases rep@.len() - k,
            {
                out.push(rep[k]);
                k += 1;
                assert(before + rep@.subrange(0, k as int) =~= (before + rep@.subrange(0, k - 1)).push(rep@[k - 1]));
            }
            assert(rep@.subrange(0, rep@.len() as int) =~= rep@);
            assert(out@ + replace_all(s@.subrange(i + pat@.len(), n as int), pat@, rep@) =~= before + (rep@ + replace_all(s@.subrange(i + pat@.len(), n as int), pat@, rep@)));
            i = i + pat.len();
        } else {
            proof {
                assert(rest.drop_first() =~= s@.subrange(i + 1, n as int));
                if rest.len() >= pat@.len() {
                    assert(rest.subrange(0, pat@.len() as int) =~= s@.subrange(i as int, i + pat@.len()));
                } else {
                    assert(replace_all(rest.drop_first(), pat@, rep@) == rest.drop_first());
                    assert(rest =~= seq![rest[0]] + rest.drop_first());
                }
            }
            let ghost before = out@;
            out.push(s[i]);
            assert(before + replace_all(rest, pat@, rep@) =~= out@ + replace_all(s@.subrange(i + 1, n as int), pat@, rep@));
            i = i + 1;
        }
    }
    assert(out@ + replace_all(s@.subrange(n as int, n as int), pat@, rep@) =~= out@);
    out
}

/// `s` up to the first `c` (see `take_until`).
fn take_until_char(s: &Vec<char>, c: char) -> (r: Vec<char>)
    ensures
        r@ == take_until(s@, c),
{
    let n = s.len();
    let mut out: Vec<char> = Vec::new();
    let mut i: usize = 0;
    assert(s@.subrange(0, n as int) =~= s@);
    assert(out@ + take_until(s@, c) =~= take_until(s@, c));
    while i < n && s[i] != c
        invariant
            n == s@.len(),
            i <= n,
            take_until(s@, c) == out@ + take_until(s@.subrange(i as int, n as int), c),
        decreases n - i,
    {
        let ghost rest = s@.subrange(i as int, n as int);
        assert(rest.drop_first() =~= s@.subrange(i + 1, n as int));
        let ghost before = out@;
        out.push(s[i]);
        assert(before + take_until(rest, c) =~= out@ + take_until(s@.subrange(i + 1, n as int), c));
        i += 1;
    }
    if i < n {
        assert(take_until(s@.subrange(i as int, n as int), c) == Seq::<char>::empty());
    }
    assert(out@ + take_until(s@.subrange(i as int, n as int), c) =~= out@);
    out
}

/// The index of the last `.` in `s` (see `last_dot`).
fn find_last_dot(s: &Vec<char>, end: usize) -> (r: Option<usize>)
    requires
        end <= s@.len(),
    ensures
        r is None <==> last_dot(s@.subrange(0, end as int)) < 0,
        r matches Some(j) ==> j == last_dot(s@.subrange(0, end as int)) && j < end,
{
    let mut last: Option<usize> = None;
    let mut i: usize = 0;
    while i < end
        invariant
            end <= s@.len(),
            i <= end,
            last is None <==> last_dot(s@.subrange(0, i as int)) < 0,
            last matches Some(j) ==> j == last_dot(s@.subrange(0, i as int)),
            last_dot(s@.subrange(0, i as int)) < i,
        decreases end - i,
    {
        assert(s@.subrange(0, i + 1).drop_last() =~= s@.subrange(0, i as int));
        if s[i] == '.' {
            last = Some(i);
        }
        i += 1;
    }
    last
}

/// The website name of a URL: `https://www.youtube.com/watch` gives `youtube`.
pub fn extract_website_name(url: &str) -> (r: String)
    ensures
        r@ == website_name(url@),
{
    proof {
        reveal_strlit("https://");
        reveal_strlit("http://");
        reveal_strlit("www.");
    }
    let chars = chars_of(url);
    let empty: Vec<char> = Vec::new();
    let a = replace_chars(&chars, &chars_of("https://"), &empty);
    let b = replace_chars(&a, &chars_of("http://"), &empty);
    let c = replace_chars(&b, &chars_of("www."), &empty);
    let d = take_until_char(&c, '/');
    assert(empty@ =~= Seq::<char>::empty());
    assert(d@ == domain_of(url@));
    assert(d@.subrange(0, d@.len() as int) =~= d@);
    match find_last_dot(&d, d.len()) {
        None => string_of(&d),
        Some(j) => {
            let start = match find_last_dot(&d, j) {
                None => 0,
                Some(i) => i + 1,
            };
            let ghost pre = d@.subrange(0, j as int);
            proof {
                lemma_last_dot_range(pre);
                assert(d@.subrange(0, j as int) == pre);
            }
            assert(pre.subrange(start as int, j as int) =~= d@.subrange(start as int, j as int));
            let ghost target = website_name(url@);
            assert(target == d@.subrange(start as int, j as int));
            let mut part: Vec<char> = Vec::new();
            let mut k: usize = start;
            while k < j
                invariant
                    target == d@.subrange(start as int, j as int),
                    target == website_name(url@),
                    start <= k <= j,
                    j < d@.len(),
                    part@ == d@.subrange(start as int, k as int),
                decreases j - k,
            {
                part.push(d[k]);
                k += 1;
                assert(d@.subrange(start as int, k as int) =~= d@.subrange(start as int, k - 1).push(d@[k - 1]));
            }
            string_of(&part)
        },
    }
}

/// The pattern of the links that notes hold: web addresses and `lb:` references.
pub const URL_PATTERN: &'static str = "(https?://|lb:)[^\\s/$.?#].[^\\s]*";

/// The website names of the URLs, in order.
pub fn website_names(urls: &Vec<String>) -> (r: Vec<String>)
    ensures
        views(r@) == urls@.map_values(|u: String| website_name(u@)),
{
    let mut out: Vec<String> = Vec::new();
    let mut k: usize = 0;
    while k < urls.len()
        invariant
            k <= urls@.len(),
            out@.len() == k,
            views(out@) == urls@.subrange(0, k as int).map_values(|u: String| website_name(u@)),
        decreases urls@.len() - k,
    {
        let name = extract_website_name(urls[k].as_str());
        let ghost before = out@;
        out.push(name);
        proof {
            let lhs = views(out@);
            let rhs = urls@.subrange(0, k + 1).map_values(|u: String| website_name(u@));
            let old_l = views(before);
            let old_r = urls@.subrange(0, k as int).map_values(|u: String| website_name(u@));
            assert forall|i: int| 0 <= i < lhs.len() implies lhs[i] == rhs[i] by {
                if i < k {
                    assert(old_l[i] == old_r[i]);
                    assert(out@[i] == before[i]);
                }
            }
            assert(lhs =~= rhs);
        }
        k += 1;
    }
    assert(urls@.subrange(0, urls@.len() as int) =~= urls@);
    out
}

/// The website names of the links in `text`, in order: the matches of `URL_PATTERN`,
/// each reduced by `extract_website_name`. Nothing where the pattern is refused.
pub fn find_links(text: &str) -> (r: Vec<String>)
    ensures
        match regex_matches(URL_PATTERN@, text@) {
            Some(ms) => views(r@) == names_of(ms),
            None => r@.len() == 0,
        },
{
    match find_matches(URL_PATTERN, text) {
        Some(urls) => {
            let r = website_names(&urls);
            assert(urls@.map_values(|u: String| website_name(u@)) =~= names_of(views(urls@)));
            r
        },
        None => Vec::new(),
    }
}

/// One link name resolved: a known name gives its identity, once; an unknown name
/// gives the next free identity and joins the catalogue.
pub open spec fn resolve_step(
    st: (Seq<(usize, Seq<char>)>, int, Seq<usize>),
    name: Seq<char>,
) -> (Seq<(usize, Seq<char>)>, int, Seq<usize>) {
    let cat = st.0;
    let next = st.1;
    let out = st.2;
    match first_id(cat, name) {
        Some(i) => if out.contains(i) {
            st
        } else {
            (cat, next, out.push(i))
        },
        None => (cat.push((cat.len() as usize, name)), next + 1, out.push(next as usize)),
    }
}

/// The names resolved in order, from catalogue `cat` and next identity `next`.
pub open spec fn resolve_links(
    cat: Seq<(usize, Seq<char>)>,
    next: int,
    names: Seq<Seq<char>>,
) -> (Seq<(usize, Seq<char>)>, int, Seq<usize>)
    decreases names.len(),
{
    if names.len() == 0 {
        (cat, next, Seq::empty())
    } else {
        resolve_step(resolve_links(cat, next, names.drop_last()), names.last())
    }
}

proof fn lemma_resolve_growth(cat: Seq<(usize, Seq<char>)>, next: int, names: Seq<Seq<char>>)
    ensures
        resolve_links(cat, next, names).0.len() <= cat.len() + names.len(),
        resolve_links(cat, next, names).1 <= next + names.len(),
    decreases names.len(),
{
    if names.len() > 0 {
        lemma_resolve_growth(cat, next, names.drop_last());
    }
}

fn contains_id(v: &Vec<usize>, x: usize) -> (r: bool)
    ensures
        r == v@.contains(x),
{
    let mut k: usize = 0;
    while k < v.len()
        invariant
            k <= v@.len(),
            forall|j: int| 0 <= j < k ==> v@[j] != x,
        decreases v@.len() - k,
    {
        if v[k] == x {
            assert(v@[k as int] == x);
            return true;
        }
        k += 1;
    }
    false
}

/// Resolves the link names of a document against the catalogue (see `resolve_step`):
/// known names give their identity, without repeats; unknown names take the next
/// identity from `id` and are added to the catalogue with no links.
pub fn classify_links(classify: &mut Vec<Name_Id>, id: &mut usize, link_names: &Vec<String>) -> (r: Vec<usize>)
    requires
        *old(id) + link_names@.len() <= usize::MAX,
        old(classify)@.len() + link_names@.len() <= usize::MAX,
    ensures
        (cat_view(final(classify)@), *final(id) as int, r@) == resolve_links(
            cat_view(old(classify)@),
            *old(id) as int,
            views(link_names@),
        ),
        final(classify)@.len() >= old(classify)@.len(),
        final(classify)@.subrange(0, old(classify)@.len() as int) == old(classify)@,
        forall|k: int| old(classify)@.len() <= k < final(classify)@.len() ==> (#[trigger] final(classify)@[k]).links@.len() == 0
            && final(classify)@[k].internal,
{
    let ghost names = views(link_names@);
    let ghost cat0 = cat_view(classify@);
    let ghost c0 = classify@;
    let ghost id0 = *id as int;
    let mut links: Vec<usize> = Vec::new();
    let mut k: usize = 0;
    assert(names.subrange(0, 0) =~= Seq::<Seq<char>>::empty());
    assert(c0.subrange(0, c0.len() as int) =~= c0);
    while k < link_names.len()
        invariant
            names == views(link_names@),
            cat0 == cat_view(c0),
            id0 + names.len() <= usize::MAX,
            c0.len() + names.len() <= usize::MAX,
            k <= names.len(),
            (cat_view(classify@), *id as int, links@) == resolve_links(cat0, id0, names.subrange(0, k as int)),
            classify@.subrange(0, c0.len() as int) == c0,
            classify@.len() >= c0.len(),
            forall|j: int| c0.len() <= j < classify@.len() ==> (#[trigger] classify@[j]).links@.len() == 0
                && classify@[j].internal,
        decreases names.len() - k,
    {
        proof {
            lemma_resolve_growth(cat0, id0, names.subrange(0, k as int));
            assert(names.subrange(0, k + 1).drop_last() =~= names.subrange(0, k as int));
            assert(names.subrange(0, k + 1).last() == link_names@[k as int]@);
        }
        let link = &link_names[k];
        let ghost before = classify@;
        match in_classify(link, classify) {
            Some(link_id) => {
                if !contains_id(&links, link_id) {
                    links.push(link_id);
                }
            },
            None => {
                links.push(*id);
                *id = *id + 1;
                let entry = Name_Id::new(classify.len(), link.clone(), Vec::new());
                classify.push(entry);
                proof {
                    assert(cat_view(classify@) =~= cat_view(before).push((before.len() as usize, link@)));
                    assert(classify@.subrange(0, c0.len() as int) =~= before.subrange(0, c0.len() as int));
                }
            },
        }
        k += 1;
    }
    assert(names.subrange(0, names.len() as int) =~= names);
    links
}

/// The identities of the links of a document: its links found by `find_links`, then
/// resolved by `classify_links`. Where the new identities would not fit in `usize`,
/// nothing is resolved and nothing changes.
pub fn checkforlinks(classify: &mut Vec<Name_Id>, id: &mut usize, doc: &str) -> (r: Vec<usize>)
    ensures
        match regex_matches(URL_PATTERN@, doc@) {
            Some(ms) => {
                let names = names_of(ms);
                if *old(id) + names.len() <= usize::MAX && old(classify)@.len() + names.len() <= usize::MAX {
                    (cat_view(final(classify)@), *final(id) as int, r@) == resolve_links(
                        cat_view(old(classify)@),
                        *old(id) as int,
                        names,
                    )
                } else {
                    r@.len() == 0 && final(classify)@ == old(classify)@ && *final(id) == *old(id)
                }
            },
            None => r@.len() == 0 && final(classify)@ == old(classify)@ && *final(id) == *old(id),
        },
        final(classify)@.len() >= old(classify)@.len(),
        final(classify)@.subrange(0, old(classify)@.len() as int) == old(classify)@,
        forall|k: int| old(classify)@.len() <= k < final(classify)@.len() ==> (#[trigger] final(classify)@[k]).links@.len() == 0,
{
    let link_names = find_links(doc);
    assert(classify@.subrange(0, classify@.len() as int) =~= classify@);
    if link_names.len() == 0 {
        return Vec::new();
    }
    if link_names.len() > usize::MAX - *id || link_names.len() > usize::MAX - classify.len() {
        return Vec::new();
    }
    classify_links(classify, id, &link_names)
}

/// Some node of `g` has the title `name`.
pub open spec fn has_title(g: Seq<LinkNode>, name: Seq<char>) -> bool {
    exists|j: int| 0 <= j < g.len() && (#[trigger] g[j]).title@ == name
}

/// A catalogue whose identities are its indices and whose next identity is its length.
pub open spec fn cat_numbered(cat: Seq<(usize, Seq<char>)>, next: int) -> bool {
    &&& next == cat.len()
    &&& forall|k: int| 0 <= k < cat.len() ==> (#[trigger] cat[k]).0 == k
}

proof fn lemma_first_id_present(cat: Seq<(usize, Seq<char>)>, name: Seq<char>)
    ensures
        first_id(cat, name) matches Some(i) ==> exists|k: int| 0 <= k < cat.len() && (#[trigger] cat[k]).0 == i,
    decreases cat.len(),
{
    if cat.len() > 0 && cat[0].1 != name {
        lemma_first_id_present(cat.drop_first(), name);
        if let Some(i) = first_id(cat, name) {
            let k = choose|k: int| 0 <= k < cat.drop_first().len() && (#[trigger] cat.drop_first()[k]).0 == i;
            assert(cat[k + 1] == cat.drop_first()[k]);
        }
    }
}

proof fn lemma_resolve_numbered(cat: Seq<(usize, Seq<char>)>, next: int, names: Seq<Seq<char>>)
    requires
        cat_numbered(cat, next),
        cat.len() + names.len() <= usize::MAX,
    ensures
        cat_numbered(resolve_links(cat, next, names).0, resolve_links(cat, next, names).1),
        forall|j: int| 0 <= j < resolve_links(cat, next, names).2.len() ==> #[trigger] resolve_links(cat, next, names).2[j]
            < resolve_links(cat, next, names).0.len(),
        resolve_links(cat, next, names).0.len() <= cat.len() + names.len(),
        resolve_links(cat, next, names).2.no_duplicates(),
    decreases names.len(),
{
    if names.len() > 0 {
        lemma_resolve_numbered(cat, next, names.drop_last());
        let st = resolve_links(cat, next, names.drop_last());
        let name = names.last();
        lemma_first_id_present(st.0, name);
        match first_id(st.0, name) {
            Some(i) => {
                if !st.2.contains(i) {
                    let out = st.2.push(i);
                    assert forall|j: int| 0 <= j < out.len() implies #[trigger] out[j] < st.0.len() by {
                        if j < st.2.len() {
                            assert(out[j] == st.2[j]);
                        }
                    }
                    assert forall|a: int, b: int| 0 <= a < out.len() && 0 <= b < out.len() && a != b implies out[a] != out[b] by {
                        if a < st.2.len() && b < st.2.len() {
                            assert(out[a] == st.2[a] && out[b] == st.2[b]);
                        } else if a < st.2.len() {
                            assert(st.2.contains(out[a]));
                        } else if b < st.2.len() {
                            assert(st.2.contains(out[b]));
                        }
                    }
                }
            },
            None => {
                let c2 = st.0.push((st.0.len() as usize, name));
                let out = st.2.push(st.1 as usize);
                assert forall|k: int| 0 <= k < c2.len() implies (#[trigger] c2[k]).0 == k by {
                    if k < st.0.len() {
                        assert(c2[k] == st.0[k]);
                    }
                }
                assert forall|j: int| 0 <= j < out.len() implies #[trigger] out[j] < c2.len() by {
                    if j < st.2.len() {
                        assert(out[j] == st.2[j]);
                    }
                }
                assert forall|a: int, b: int| 0 <= a < out.len() && 0 <= b < out.len() && a != b implies out[a] != out[b] by {
                    if a < st.2.len() && b < st.2.len() {
                        assert(out[a] == st.2[a] && out[b] == st.2[b]);
                    } else if a < st.2.len() {
                        assert(out[a] == st.2[a] && st.2[a] < st.0.len());
                    } else if b < st.2.len() {
                        assert(out[b] == st.2[b] && st.2[b] < st.0.len());
                    }
                }
            },
        }
    }
}

/// The graph of a set of notes, given as (name, text) pairs in order: each note's links
/// are resolved against the catalogue built so far (`checkforlinks`), then the note
/// joins it; the catalogue becomes the graph (`graph_from_catalogue`). The result is
/// a graph the layout can run on, with no self-links, no repeated links and no
/// cluster identifiers, and every note's name is the title of one of its nodes.
pub fn graph_from_notes(notes: &Vec<(String, String)>) -> (g: Vec<LinkNode>)
    ensures
        graph_wf(g@),
        forall|i: int, m: int| 0 <= i < g@.len() && 0 <= m < g@[i].links@.len() ==> #[trigger] g@[i].links@[m] != i,
        forall|i: int| 0 <= i < g@.len() ==> (#[trigger] g@[i]).links@.no_duplicates() && g@[i].cluster_id is None,
        g@.len() < usize::MAX ==> forall|k: int| 0 <= k < notes@.len() ==> has_title(g@, (#[trigger] notes@[k]).0@),
{
    let mut classify: Vec<Name_Id> = Vec::new();
    let mut id: usize = 0;
    let mut k: usize = 0;
    while k < notes.len() && id < usize::MAX
        invariant
            k <= notes@.len(),
            id == classify@.len(),
            forall|j: int| 0 <= j < classify@.len() ==> (#[trigger] classify@[j]).id == j,
            forall|j: int, m: int| 0 <= j < classify@.len() && 0 <= m < classify@[j].links@.len()
                ==> #[trigger] classify@[j].links@[m] < classify@.len(),
            forall|j: int| 0 <= j < classify@.len() ==> (#[trigger] classify@[j]).links@.no_duplicates(),
            classify@.len() < usize::MAX ==> forall|q: int| 0 <= q < k ==> crate::notes::has_name(classify@, (#[trigger] notes@[q]).0@),
        decreases notes@.len() - k,
    {
        let ghost c0 = classify@;
        let ghost id0 = id;
        let text = &notes[k].1;
        let links = checkforlinks(&mut classify, &mut id, text.as_str());
        proof {
            let c1 = classify@;
            assert forall|j: int| 0 <= j < c0.len() implies #[trigger] c1[j] == c0[j] by {
                assert(c1.subrange(0, c0.len() as int)[j] == c1[j]);
            }
            if c1.len() != c0.len() || links@.len() != 0 || id != id0 {
                let ms = regex_matches(URL_PATTERN@, text@)->0;
                let names = names_of(ms);
                let cat0 = cat_view(c0);
                assert(cat_numbered(cat0, id0 as int));
                lemma_resolve_numbered(cat0, id0 as int, names);
                let st = resolve_links(cat0, id0 as int, names);
                assert(cat_view(c1) == st.0);
                assert forall|j: int| 0 <= j < c1.len() implies (#[trigger] c1[j]).id == j by {
                    assert(cat_view(c1)[j] == st.0[j]);
                }
                assert forall|j: int| 0 <= j < links@.len() implies #[trigger] links@[j] < c1.len() by {
                    assert(links@[j] == st.2[j]);
                }
                assert(links@.no_duplicates());
            } else {
                assert(links@.no_duplicates());
            }
            assert forall|j: int| 0 <= j < c1.len() implies (#[trigger] c1[j]).links@.no_duplicates() by {
                if j < c0.len() {
                    assert(c1[j] == c0[j]);
                } else {
                    assert(c1[j].links@.len() == 0);
                }
            }
            if c1.len() < usize::MAX {
                assert forall|q: int| 0 <= q < k implies crate::notes::has_name(c1, (#[trigger] notes@[q]).0@) by {
                    let j = choose|j: int| 0 <= j < c0.len() && (#[trigger] c0[j]).name@ == notes@[q].0@;
                    assert(c1[j] == c0[j]);
                }
            }
            assert forall|j: int, m: int| 0 <= j < c1.len() && 0 <= m < c1[j].links@.len()
                implies #[trigger] c1[j].links@[m] < c1.len() by {
                if j < c0.len() {
                    assert(c1[j] == c0[j]);
                }
            }
        }
        let ghost c1 = classify@;
        if id < usize::MAX {
            id = id + 1;
            let index = classify.len();
            classify.push(Name_Id::new(index, notes[k].0.clone(), links));
            proof {
                let c2 = classify@;
                assert forall|j: int| 0 <= j < c2.len() implies (#[trigger] c2[j]).id == j by {
                    if j < c1.len() {
                        assert(c2[j] == c1[j]);
                    }
                }
                assert forall|j: int, m: int| 0 <= j < c2.len() && 0 <= m < c2[j].links@.len()
                    implies #[trigger] c2[j].links@[m] < c2.len() by {
                    if j < c1.len() {
                        assert(c2[j] == c1[j]);
                    }
                }
                assert forall|j: int| 0 <= j < c2.len() implies (#[trigger] c2[j]).links@.no_duplicates() by {
                    if j < c1.len() {
                        assert(c2[j] == c1[j]);
                    }
                }
                if c2.len() < usize::MAX {
                    assert forall|q: int| 0 <= q < k + 1 implies crate::notes::has_name(c2, (#[trigger] notes@[q]).0@) by {
                        if q < k {
                            let j = choose|j: int| 0 <= j < c1.len() && (#[trigger] c1[j]).name@ == notes@[q].0@;
                            assert(c2[j] == c1[j]);
                        } else {
                            assert(c2[index as int].name@ == notes@[q].0@);
                            assert(c2[index as int] == c2[index as int]);
                        }
                    }
                }
            }
        }
        k += 1;
    }
    assert(classify@.len() < usize::MAX ==> k == notes@.len());
    let g = graph_from_catalogue(&classify);
    proof {
        assert forall|i: int, m: int| 0 <= i < g@.len() && 0 <= m < g@[i].links@.len() implies #[trigger] g@[i].links@[m] < g@.len() by {
            crate::notes::lemma_without_within(classify@[i].links@, classify@[i].id);
            let x = g@[i].links@[m];
            assert(without(classify@[i].links@, classify@[i].id).contains(x));
        }
        assert forall|i: int, m: int| 0 <= i < g@.len() && 0 <= m < g@[i].links@.len() implies #[trigger] g@[i].links@[m] != i by {
            crate::notes::lemma_without_within(classify@[i].links@, classify@[i].id);
            let x = g@[i].links@[m];
            assert(without(classify@[i].links@, classify@[i].id).contains(x));
        }
        assert forall|i: int| 0 <= i < g@.len() implies (#[trigger] g@[i]).links@.no_duplicates() && g@[i].cluster_id is None by {
            crate::notes::lemma_without_within(classify@[i].links@, classify@[i].id);
        }
        if g@.len() < usize::MAX {
            assert(classify@.len() < usize::MAX);
            assert forall|q: int| 0 <= q < notes@.len() implies has_title(g@, (#[trigger] notes@[q]).0@) by {
                assert(q < k);
                assert(crate::notes::has_name(classify@, notes@[q].0@));
                let j = choose|j: int| 0 <= j < classify@.len() && (#[trigger] classify@[j]).name@ == notes@[q].0@;
                assert(g@[j].title@ == classify@[j].name@);
            }
        }
    }
    g
}

} // verus!
