//! Resolution of app title patterns (`appREs`) against the Steam app
//! catalogue: every catalogue entry whose title a pattern matches.
use vstd::prelude::*;
use regex::Regex;

verus! {

#[verifier::external_type_specification]
#[verifier::external_body]
pub struct ExRegex(Regex);

/// What `Regex::new` gives for `pattern`: `None` when it compiles, the text
/// of its error otherwise.
pub uninterp spec fn regex_new_error(pattern: Seq<char>) -> Option<Seq<char>>;

/// What `Regex::is_match` gives for the regex compiled from `pattern` on
/// `haystack`: whether the regex matches anywhere in it.
pub uninterp spec fn regex_is_match(pattern: Seq<char>, haystack: Seq<char>) -> bool;

/// A compiled title pattern, with the source text it was compiled from.
pub struct TitlePattern {
    regex: Regex,
    source: Ghost<Seq<char>>,
}

impl TitlePattern {
    pub closed spec fn source(&self) -> Seq<char> {
        self.source@
    }
}

/// `Regex::new`: compiles `pattern`; on failure the error's text.
#[verifier::external_body]
fn compile_pattern(pattern: &str) -> (r: Result<TitlePattern, String>)
    ensures
        r matches Ok(p) ==> regex_new_error(pattern@) is None && p.source() == pattern@,
        r matches Err(m) ==> regex_new_error(pattern@) == Some(m@),
{
    match Regex::new(pattern) {
        Ok(regex) => Ok(TitlePattern { regex, source: Ghost(pattern@) }),
        Err(e) => Err(e.to_string()),
    }
}

/// `Regex::is_match`: whether the pattern matches anywhere in `haystack`.
#[verifier::external_body]
fn pattern_is_match(p: &TitlePattern, haystack: &str) -> (b: bool)
    ensures
        b == regex_is_match(p.source(), haystack@),
{
    p.regex.is_match(haystack)
}

/// A catalogue as App IDs and title texts.
pub open spec fn catalogue_view(apps: Seq<(u32, String)>) -> Seq<(u32, Seq<char>)> {
    apps.map_values(|a: (u32, String)| (a.0, a.1@))
}

/// The entries of `apps` whose flag in `hits` is set, in order.
pub open spec fn selected(apps: Seq<(u32, Seq<char>)>, hits: Seq<bool>) -> Seq<(u32, Seq<char>)>
    decreases apps.len(),
{
    if apps.len() == 0 {
        Seq::empty()
    } else {
        let rest = selected(apps.drop_last(), hits.take(apps.len() - 1));
        if hits[apps.len() - 1] {
            rest.push(apps.last())
        } else {
            rest
        }
    }
}

/// The catalogue entries whose title `pattern` matches, in catalogue order.
pub open spec fn matching_apps(pattern: Seq<char>, apps: Seq<(u32, Seq<char>)>) -> Seq<
    (u32, Seq<char>),
> {
    selected(apps, apps.map_values(|a: (u32, Seq<char>)| regex_is_match(pattern, a.1)))
}

/// The App IDs that the patterns resolve to: for each pattern that
/// compiles, in order, the IDs of the entries whose title it matches.
pub open spec fn resolve_spec(patterns: Seq<Seq<char>>, apps: Seq<(u32, Seq<char>)>) -> Seq<u32>
    decreases patterns.len(),
{
    if patterns.len() == 0 {
        Seq::empty()
    } else {
        let rest = resolve_spec(patterns.drop_last(), apps);
        if regex_new_error(patterns.last()) is None {
            rest + matching_apps(patterns.last(), apps).map_values(|a: (u32, Seq<char>)| a.0)
        } else {
            rest
        }
    }
}

/// The catalogue entries whose match result in `hits` is set, in catalogue
/// order: the selection behind a pattern's matches, given the result of the
/// pattern on each title.
pub fn select_matches(app_list: &[(u32, String)], hits: &[bool]) -> (r: Vec<(u32, String)>)
    requires
        hits@.len() == app_list@.len(),
    ensures
        catalogue_view(r@) == selected(catalogue_view(app_list@), hits@),
{
    let ghost apps = catalogue_view(app_list@);
    let mut r: Vec<(u32, String)> = Vec::new();
    let mut i: usize = 0;
    assert(catalogue_view(r@) =~= Seq::<(u32, Seq<char>)>::empty());
    assert(apps.take(0) =~= Seq::<(u32, Seq<char>)>::empty());
    while i < app_list.len()
        invariant
            apps == catalogue_view(app_list@),
            hits@.len() == app_list@.len(),
            i <= app_list@.len(),
            catalogue_view(r@) == selected(apps.take(i as int), hits@.take(i as int)),
        decreases app_list@.len() - i,
    {
        assert(apps.take(i + 1).drop_last() =~= apps.take(i as int));
        assert(apps.take(i + 1).last() == apps[i as int]);
        assert(hits@.take(i + 1).take(i as int) =~= hits@.take(i as int));
        assert(hits@.take(i + 1)[i as int] == hits@[i as int]);
        let (id, name) = &app_list[i];
        if hits[i] {
            let ghost before = catalogue_view(r@);
            r.push((*id, name.clone()));
            assert(catalogue_view(r@) =~= before.push((*id, name@)));
        }
        i += 1;
    }
    assert(apps.take(app_list@.len() as int) =~= apps);
    assert(hits@.take(app_list@.len() as int) =~= hits@);
    r
}

fn matches_in(p: &TitlePattern, app_list: &[(u32, String)]) -> (r: Vec<(u32, String)>)
    ensures
        catalogue_view(r@) == matching_apps(p.source(), catalogue_view(app_list@)),
{
    let ghost apps = catalogue_view(app_list@);
    let mut hits: Vec<bool> = Vec::new();
    let mut i: usize = 0;
    while i < app_list.len()
        invariant
            apps == catalogue_view(app_list@),
            i <= app_list@.len(),
            hits@.len() == i,
            forall|j: int| 0 <= j < i ==> #[trigger] hits@[j] == regex_is_match(p.source(), apps[j].1),
        decreases app_list@.len() - i,
    {
        hits.push(pattern_is_match(p, app_list[i].1.as_str()));
        i += 1;
    }
    assert(hits@ =~= apps.map_values(|a: (u32, Seq<char>)| regex_is_match(p.source(), a.1)));
    select_matches(app_list, hits.as_slice())
}

/// The catalogue entries whose title `pattern` matches, in catalogue order,
/// or the regex error text when `pattern` does not compile.
pub fn match_pattern(pattern: &str, app_list: &[(u32, String)]) -> (r: Result<
    Vec<(u32, String)>,
    String,
>)
    ensures
        r matches Ok(apps) ==> regex_new_error(pattern@) is None && catalogue_view(apps@)
            == matching_apps(pattern@, catalogue_view(app_list@)),
        r matches Err(m) ==> regex_new_error(pattern@) == Some(m@),
{
    match compile_pattern(pattern) {
        Ok(p) => Ok(matches_in(&p, app_list)),
        Err(m) => Err(m),
    }
}

/// For each pattern, in order, the App IDs of all catalogue entries whose
/// title it matches; patterns that do not compile add nothing.
pub fn resolve_app_res(patterns: &[String], app_list: &[(u32, String)]) -> (ids: Vec<u32>)
    ensures
        ids@ == resolve_spec(
            patterns@.map_values(|p: String| p@),
            catalogue_view(app_list@),
        ),
{
    let ghost pv = patterns@.map_values(|p: String| p@);
    let ghost apps = catalogue_view(app_list@);
    let mut ids: Vec<u32> = Vec::new();
    let mut k: usize = 0;
    assert(pv.take(0) =~= Seq::<Seq<char>>::empty());
    while k < patterns.len()
        invariant
            pv == patterns@.map_values(|p: String| p@),
            apps == catalogue_view(app_list@),
            k <= patterns@.len(),
            ids@ == resolve_spec(pv.take(k as int), apps),
        decreases patterns@.len() - k,
    {
        assert(pv.take(k + 1).drop_last() =~= pv.take(k as int));
        assert(pv.take(k + 1).last() == patterns@[k as int]@);
        match compile_pattern(patterns[k].as_str()) {
            Ok(p) => {
                let found = matches_in(&p, app_list);
                let ghost before = ids@;
                let mut j: usize = 0;
                while j < found.len()
                    invariant
                        j <= found@.len(),
                        ids@ == before + catalogue_view(found@).take(j as int).map_values(
                            |a: (u32, Seq<char>)| a.0,
                        ),
                    decreases found@.len() - j,
                {
                    ids.push(found[j].0);
                    assert(catalogue_view(found@).take(j + 1).map_values(|a: (u32, Seq<char>)| a.0)
                        =~= catalogue_view(found@).take(j as int).map_values(
                        |a: (u32, Seq<char>)| a.0,
                    ).push(found@[j as int].0));
                    j += 1;
                }
                assert(catalogue_view(found@).take(found@.len() as int) =~= catalogue_view(
                    found@,
                ));
            },
            Err(_) => {},
        }
        k += 1;
    }
    assert(pv.take(patterns@.len() as int) =~= pv);
    ids
}


/// Resolution goes pattern by pattern: resolving `ps` followed by `qs`
/// gives the IDs for `ps` followed by those for `qs`. So a pattern that
/// matches nothing, or does not compile, adds nothing and leaves the
/// patterns after it as they are.
pub proof fn lemma_resolve_concat(
    ps: Seq<Seq<char>>,
    qs: Seq<Seq<char>>,
    apps: Seq<(u32, Seq<char>)>,
)
    ensures
        resolve_spec(ps + qs, apps) == resolve_spec(ps, apps) + resolve_spec(qs, apps),
    decreases qs.len(),
{
    if qs.len() == 0 {
        assert(ps + qs =~= ps);
        assert(resolve_spec(ps, apps) + resolve_spec(qs, apps) =~= resolve_spec(ps, apps));
    } else {
        lemma_resolve_concat(ps, qs.drop_last(), apps);
        assert((ps + qs).drop_last() =~= ps + qs.drop_last());
        assert((ps + qs).last() == qs.last());
        let a = resolve_spec(ps, apps);
        let b = resolve_spec(qs.drop_last(), apps);
        let m = matching_apps(qs.last(), apps).map_values(|x: (u32, Seq<char>)| x.0);
        assert(a + b + m =~= a + (b + m));
    }
}

/// One pattern resolves to the IDs of the catalogue entries whose title it
/// matches, in catalogue order, or to nothing when it does not compile.
pub proof fn lemma_resolve_single(p: Seq<char>, apps: Seq<(u32, Seq<char>)>)
    ensures
        regex_new_error(p) is None ==> resolve_spec(seq![p], apps) == matching_apps(
            p,
            apps,
        ).map_values(|x: (u32, Seq<char>)| x.0),
        regex_new_error(p) is Some ==> resolve_spec(seq![p], apps).len() == 0,
{
    let one = seq![p];
    assert(one.drop_last() =~= Seq::<Seq<char>>::empty());
    assert(one.last() == p);
    assert(one.len() == 1);
    assert(resolve_spec(one.drop_last(), apps) =~= Seq::<u32>::empty());
    assert(Seq::<u32>::empty() + matching_apps(p, apps).map_values(|x: (u32, Seq<char>)| x.0)
        =~= matching_apps(p, apps).map_values(|x: (u32, Seq<char>)| x.0));
}

/// A pattern that compiles and matches no title contributes nothing:
/// adding it anywhere in the list changes no result.
pub proof fn lemma_unmatched_pattern_adds_nothing(
    ps: Seq<Seq<char>>,
    p: Seq<char>,
    qs: Seq<Seq<char>>,
    apps: Seq<(u32, Seq<char>)>,
)
    requires
        forall|k: int| 0 <= k < apps.len() ==> !regex_is_match(p, #[trigger] apps[k].1),
    ensures
        resolve_spec(ps + seq![p] + qs, apps) == resolve_spec(ps + qs, apps),
{
    lemma_no_match_selects_nothing(p, apps);
    lemma_resolve_single(p, apps);
    lemma_resolve_concat(ps + seq![p], qs, apps);
    lemma_resolve_concat(ps, seq![p], apps);
    lemma_resolve_concat(ps, qs, apps);
    assert(resolve_spec(seq![p], apps) =~= Seq::<u32>::empty());
    assert(resolve_spec(ps, apps) + Seq::<u32>::empty() =~= resolve_spec(ps, apps));
}

proof fn lemma_selected_none(apps: Seq<(u32, Seq<char>)>, hits: Seq<bool>)
    requires
        hits.len() == apps.len(),
        forall|k: int| 0 <= k < hits.len() ==> !#[trigger] hits[k],
    ensures
        selected(apps, hits).len() == 0,
    decreases apps.len(),
{
    if apps.len() > 0 {
        let h = hits.take(apps.len() - 1);
        assert forall|k: int| 0 <= k < h.len() implies !#[trigger] h[k] by {
            assert(h[k] == hits[k]);
        }
        lemma_selected_none(apps.drop_last(), h);
    }
}

proof fn lemma_no_match_selects_nothing(p: Seq<char>, apps: Seq<(u32, Seq<char>)>)
    requires
        forall|k: int| 0 <= k < apps.len() ==> !regex_is_match(p, #[trigger] apps[k].1),
    ensures
        matching_apps(p, apps).len() == 0,
{
    let hits = apps.map_values(|a: (u32, Seq<char>)| regex_is_match(p, a.1));
    assert forall|k: int| 0 <= k < hits.len() implies !#[trigger] hits[k] by {
        assert(hits[k] == regex_is_match(p, apps[k].1));
    }
    lemma_selected_none(apps, hits);
}

} // verus!
