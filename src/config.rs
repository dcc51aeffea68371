//! Grouping of `fmt.<language>.<option>` configuration entries by language.
use vstd::prelude::*;
use vstd::string::*;

use crate::text::{split_on, split_spec, views};

verus! {

/// The first segment of every configuration key that names a formatter option.
pub const OPTION_KEY: &'static str = "fmt";

/// Name/value pairs, each key as a character sequence.
pub type PairsModel = Seq<(Seq<char>, Seq<char>)>;

/// Languages in order of first appearance, each with its options in order of
/// first appearance.
pub type GroupsModel = Seq<(Seq<char>, PairsModel)>;

/// The model of a sequence of string pairs.
pub open spec fn pairs_view(v: Seq<(String, String)>) -> PairsModel {
    v.map_values(|p: (String, String)| (p.0@, p.1@))
}

/// `i` is the first position of `s` whose key is `k`.
pub open spec fn is_first_key<V>(s: Seq<(Seq<char>, V)>, k: Seq<char>, i: int) -> bool {
    &&& 0 <= i < s.len()
    &&& s[i].0 == k
    &&& forall|j: int| 0 <= j < i ==> s[j].0 != k
}

/// The first position of `s` whose key is `k`, or `-1` where no key is `k`.
pub open spec fn key_pos<V>(s: Seq<(Seq<char>, V)>, k: Seq<char>) -> int {
    if exists|i: int| is_first_key(s, k, i) {
        choose|i: int| is_first_key(s, k, i)
    } else {
        -1
    }
}

/// The value stored under `k`, if any.
pub open spec fn lookup(s: PairsModel, k: Seq<char>) -> Option<Seq<char>> {
    let p = key_pos(s, k);
    if p >= 0 {
        Some(s[p].1)
    } else {
        None
    }
}

/// `opts` with `k` set to `v`: a later value replaces an earlier one in place.
pub open spec fn set_option(opts: PairsModel, k: Seq<char>, v: Seq<char>) -> PairsModel {
    let p = key_pos(opts, k);
    if p >= 0 {
        opts.update(p, (k, v))
    } else {
        opts.push((k, v))
    }
}

/// `groups` with option `opt` of language `lang` set to `val`.
pub open spec fn add_option(
    groups: GroupsModel,
    lang: Seq<char>,
    opt: Seq<char>,
    val: Seq<char>,
) -> GroupsModel {
    let p = key_pos(groups, lang);
    if p >= 0 {
        groups.update(p, (lang, set_option(groups[p].1, opt, val)))
    } else {
        groups.push((lang, seq![(opt, val)]))
    }
}

/// The key lies in the formatter namespace.
pub open spec fn is_namespaced(name: Seq<char>) -> bool {
    split_spec(name, '.')[0] == OPTION_KEY@
}

/// The key has the shape `fmt.<language>.<option>`.
pub open spec fn is_option_key(name: Seq<char>) -> bool {
    is_namespaced(name) && split_spec(name, '.').len() == 3
}

/// The key lies in the formatter namespace but does not have three segments.
pub open spec fn is_malformed_key(name: Seq<char>) -> bool {
    is_namespaced(name) && split_spec(name, '.').len() != 3
}

/// The option groups that a scan of `entries` in order builds.
pub open spec fn groups_of(entries: PairsModel) -> GroupsModel
    decreases entries.len(),
{
    if entries.len() == 0 {
        Seq::empty()
    } else {
        let prev = groups_of(entries.drop_last());
        let name = entries.last().0;
        let path = split_spec(name, '.');
        if is_option_key(name) {
            add_option(prev, path[1], path[2], entries.last().1)
        } else {
            prev
        }
    }
}

/// The keys of `entries`, in order, that a scan skips as malformed.
pub open spec fn malformed_of(entries: PairsModel) -> Seq<Seq<char>>
    decreases entries.len(),
{
    if entries.len() == 0 {
        Seq::empty()
    } else {
        let prev = malformed_of(entries.drop_last());
        if is_malformed_key(entries.last().0) {
            prev.push(entries.last().0)
        } else {
            prev
        }
    }
}

/// The options of one language, in order of first appearance.
pub struct LanguageOptions {
    pub language: String,
    pub options: Vec<(String, String)>,
}

impl View for LanguageOptions {
    type V = (Seq<char>, PairsModel);

    open spec fn view(&self) -> Self::V {
        (self.language@, pairs_view(self.options@))
    }
}

/// The model of a sequence of language groups.
pub open spec fn groups_view(v: Seq<LanguageOptions>) -> GroupsModel {
    v.map_values(|g: LanguageOptions| g@)
}

/// What a scan of the configuration collects: the option groups, and the
/// keys it skipped as malformed, for the caller to report.
pub struct CollectedOptions {
    pub groups: Vec<LanguageOptions>,
    pub malformed: Vec<String>,
}

/// Finds the first pair whose key is `k`.
fn find_pair(v: &Vec<(String, String)>, k: &String) -> (r: Option<usize>)
    ensures
        match r {
            Some(p) => p < v@.len() && p == key_pos(pairs_view(v@), k@),
            None => key_pos(pairs_view(v@), k@) == -1,
        },
{
    let ghost s = pairs_view(v@);
    let mut i: usize = 0;
    while i < v.len()
        invariant
            i <= v@.len(),
            s == pairs_view(v@),
            forall|j: int| 0 <= j < i ==> s[j].0 != k@,
        decreases v@.len() - i,
    {
        if v[i].0 == *k {
            assert(is_first_key(s, k@, i as int));
            let ghost c = choose|c: int| is_first_key(s, k@, c);
            assert(c == i);
            return Some(i);
        }
        i = i + 1;
    }
    assert(!exists|c: int| is_first_key(s, k@, c));
    None
}

/// Finds the group of language `k`.
fn find_group(v: &Vec<LanguageOptions>, k: &String) -> (r: Option<usize>)
    ensures
        match r {
            Some(p) => p < v@.len() && p == key_pos(groups_view(v@), k@),
            None => key_pos(groups_view(v@), k@) == -1,
        },
{
    let ghost s = groups_view(v@);
    let mut i: usize = 0;
    while i < v.len()
        invariant
            i <= v@.len(),
            s == groups_view(v@),
            forall|j: int| 0 <= j < i ==> s[j].0 != k@,
        decreases v@.len() - i,
    {
        if v[i].language == *k {
            assert(is_first_key(s, k@, i as int));
            let ghost c = choose|c: int| is_first_key(s, k@, c);
            assert(c == i);
            return Some(i);
        }
        i = i + 1;
    }
    assert(!exists|c: int| is_first_key(s, k@, c));
    None
}

/// Sets option `k` to `v`.
fn set_pair(opts: &mut Vec<(String, String)>, k: String, v: String)
    ensures
        pairs_view(final(opts)@) == set_option(pairs_view(old(opts)@), k@, v@),
{
    let ghost before = pairs_view(opts@);
    match find_pair(opts, &k) {
        Some(p) => {
            opts.remove(p);
            opts.insert(p, (k, v));
            assert(pairs_view(opts@) =~= before.update(p as int, (k@, v@)));
        },
        None => {
            opts.push((k, v));
            assert(pairs_view(opts@) =~= before.push((k@, v@)));
        },
    }
}

/// Collects the `fmt.<language>.<option>` entries of a configuration, given as
/// name/value pairs in the order the store lists them, into one option group
/// per language. A later value of an option replaces an earlier one. Keys of
/// the namespace without exactly three segments are skipped and listed;
/// keys outside it are ignored.
pub fn collect_formatters(entries: &Vec<(String, String)>) -> (r: CollectedOptions)
    ensures
        groups_view(r.groups@) == groups_of(pairs_view(entries@)),
        views(r.malformed@) == malformed_of(pairs_view(entries@)),
{
    let ghost all = pairs_view(entries@);
    let key = String::from_str(OPTION_KEY);
    let mut groups: Vec<LanguageOptions> = Vec::new();
    let mut malformed: Vec<String> = Vec::new();
    let mut i: usize = 0;
    assert(all.subrange(0, 0) =~= Seq::<(Seq<char>, Seq<char>)>::empty());
    assert(views(malformed@) =~= Seq::<Seq<char>>::empty());
    assert(groups_view(groups@) =~= Seq::<(Seq<char>, PairsModel)>::empty());
    while i < entries.len()
        invariant
            i <= entries@.len(),
            all == pairs_view(entries@),
            key@ == OPTION_KEY@,
            groups_view(groups@) == groups_of(all.subrange(0, i as int)),
            views(malformed@) == malformed_of(all.subrange(0, i as int)),
        decreases entries@.len() - i,
    {
        let ghost prefix = all.subrange(0, i as int);
        let ghost next = all.subrange(0, i + 1);
        assert(next.drop_last() =~= prefix);
        let name = &entries[i].0;
        let value = &entries[i].1;
        assert(next.last() == (name@, value@));
        let path = split_on(name.as_str(), '.');
        if path[0] == key {
            if path.len() != 3 {
                let ghost before = malformed@;
                malformed.push(name.clone());
                assert(views(malformed@) =~= views(before).push(name@));
            } else {
                let lang = path[1].clone();
                let opt = path[2].clone();
                let ghost old_groups = groups_view(groups@);
                match find_group(&groups, &lang) {
                    Some(p) => {
                        let mut g = groups.remove(p);
                        assert(g@ == old_groups[p as int]);
                        set_pair(&mut g.options, opt, value.clone());
                        groups.insert(p, g);
                        assert(groups_view(groups@) =~= old_groups.update(
                            p as int,
                            (lang@, set_option(old_groups[p as int].1, opt@, value@)),
                        ));
                    },
                    None => {
                        let mut options: Vec<(String, String)> = Vec::new();
                        options.push((opt, value.clone()));
                        assert(pairs_view(options@) =~= seq![(opt@, value@)]);
                        groups.push(LanguageOptions { language: lang, options });
                        assert(groups_view(groups@) =~= old_groups.push(
                            (lang@, seq![(opt@, value@)]),
                        ));
                    },
                }
            }
        }
        i = i + 1;
    }
    assert(all.subrange(0, entries@.len() as int) =~= all);
    CollectedOptions { groups, malformed }
}

/// A key of the formatter namespace that does not have exactly three
/// segments adds no option to any group, wherever it stands among the entries:
/// the scan goes on past it and builds the groups of the other entries. The
/// key itself is listed as skipped.
pub proof fn lemma_malformed_key_skipped(
    before: PairsModel,
    name: Seq<char>,
    value: Seq<char>,
    after: PairsModel,
)
    requires
        is_malformed_key(name),
    ensures
        groups_of(before + seq![(name, value)] + after) == groups_of(before + after),
        malformed_of(before.push((name, value))) == malformed_of(before).push(name),
    decreases after.len(),
{
    let with = before + seq![(name, value)] + after;
    let without = before + after;
    if after.len() == 0 {
        assert(with.drop_last() =~= before);
        assert(without =~= before);
        assert(!is_option_key(name));
    } else {
        lemma_malformed_key_skipped(before, name, value, after.drop_last());
        assert(with.drop_last() =~= before + seq![(name, value)] + after.drop_last());
        assert(without.drop_last() =~= before + after.drop_last());
        assert(with.last() == without.last());
    }
    assert(before.push((name, value)).drop_last() =~= before);
}

} // verus!
