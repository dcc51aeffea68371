//! The formatter directory, resolution of a staged path to a command, and the
//! argument vectors to launch for the paths of a status scan.
use vstd::prelude::*;
use vstd::string::*;

use crate::config::{
    collect_formatters, groups_of, groups_view, lookup, pairs_view, CollectedOptions, GroupsModel,
    LanguageOptions, PairsModel,
};
use crate::text::{replace_all, replace_spec, split_on, split_spec, trim, trimmed, views};

verus! {

/// The placeholder in a command template that stands for the staged path.
pub const FILE_TEMPLATE: &'static str = "{{STAGED_FILE}}";

/// The option that holds a language's command template.
pub const COMMAND_OPTION: &'static str = "command";

/// The option that holds a language's comma-separated extensions.
pub const EXTENSIONS_OPTION: &'static str = "extensions";

/// Status bit: the path is new in the index.
pub const INDEX_NEW: u32 = 1;

/// Status bit: the path is modified in the index.
pub const INDEX_MODIFIED: u32 = 2;

/// Status bit: the path is modified in the working tree.
pub const WT_MODIFIED: u32 = 256;

/// One usable formatter: a command template and the extensions it applies to.
pub struct FormatterOption {
    /// Template for the formatting command.
    pub command: String,
    /// All file extensions that apply to the command, without a leading dot.
    pub extensions: Vec<String>,
}

impl View for FormatterOption {
    type V = (Seq<char>, Seq<Seq<char>>);

    open spec fn view(&self) -> Self::V {
        (self.command@, views(self.extensions@))
    }
}

/// Named formatters in configuration order: name, command template, extensions.
pub type DirectoryModel = Seq<(Seq<char>, Seq<char>, Seq<Seq<char>>)>;

/// A configuration error: a language group lacks a required option.
#[derive(Debug)]
pub enum ConfigError {
    MissingOption { language: String, option: String },
}

impl View for ConfigError {
    type V = (Seq<char>, Seq<char>);

    open spec fn view(&self) -> Self::V {
        match self {
            ConfigError::MissingOption { language, option } => (language@, option@),
        }
    }
}

/// The extensions of a comma-separated list, each trimmed of surrounding
/// whitespace, in order.
pub open spec fn extensions_spec(s: Seq<char>) -> Seq<Seq<char>> {
    split_spec(s, ',').map_values(|p: Seq<char>| trimmed(p))
}

/// The formatter that one language group gives, or the language and the
/// first required option that it lacks.
pub open spec fn formatter_of(g: (Seq<char>, PairsModel)) -> Result<
    (Seq<char>, Seq<char>, Seq<Seq<char>>),
    (Seq<char>, Seq<char>),
> {
    match lookup(g.1, COMMAND_OPTION@) {
        None => Err((g.0, COMMAND_OPTION@)),
        Some(c) => match lookup(g.1, EXTENSIONS_OPTION@) {
            None => Err((g.0, EXTENSIONS_OPTION@)),
            Some(x) => Ok((g.0, c, extensions_spec(x))),
        },
    }
}

/// The directory that the groups give, or the error of the first group that
/// lacks a required option.
pub open spec fn directory_of(groups: GroupsModel) -> Result<DirectoryModel, (Seq<char>, Seq<char>)>
    decreases groups.len(),
{
    if groups.len() == 0 {
        Ok(Seq::empty())
    } else {
        match directory_of(groups.drop_last()) {
            Err(e) => Err(e),
            Ok(d) => match formatter_of(groups.last()) {
                Err(e) => Err(e),
                Ok(f) => Ok(d.push(f)),
            },
        }
    }
}

/// A group that has both a command and extensions.
pub open spec fn is_complete(g: (Seq<char>, PairsModel)) -> bool {
    lookup(g.1, COMMAND_OPTION@) is Some && lookup(g.1, EXTENSIONS_OPTION@) is Some
}

/// The command of the first formatter whose extensions hold `ext` exactly.
pub open spec fn command_for(dir: DirectoryModel, ext: Seq<char>) -> Option<Seq<char>>
    decreases dir.len(),
{
    if dir.len() == 0 {
        None
    } else if dir[0].2.contains(ext) {
        Some(dir[0].1)
    } else {
        command_for(dir.drop_first(), ext)
    }
}

/// What `Path::extension` gives for a path: it depends on the path alone.
pub uninterp spec fn extension_of(path: Seq<char>) -> Option<Seq<char>>;

/// The command template that a path resolves to by its extension.
pub open spec fn resolve(dir: DirectoryModel, path: Seq<char>) -> Option<Seq<char>> {
    match extension_of(path) {
        None => None,
        Some(e) => command_for(dir, e),
    }
}

/// The argument vector of a template for a path: the placeholder replaced by
/// the path, then split at single spaces.
pub open spec fn argv_spec(template: Seq<char>, path: Seq<char>) -> Seq<Seq<char>> {
    split_spec(replace_spec(template, FILE_TEMPLATE@, path), ' ')
}

/// The argument vector to launch for a path, if it resolves to a command.
pub open spec fn invocation(dir: DirectoryModel, path: Seq<char>) -> Option<Seq<Seq<char>>> {
    match resolve(dir, path) {
        None => None,
        Some(c) => Some(argv_spec(c, path)),
    }
}

/// A status that is exactly new in the index or exactly modified in the
/// index. A path with any working-tree change beside it does not qualify.
pub open spec fn qualifies(flags: u32) -> bool {
    flags == INDEX_NEW || flags == INDEX_MODIFIED
}

/// The argument vectors to launch for a status list, in order.
pub open spec fn dispatch(dir: DirectoryModel, statuses: Seq<(Seq<char>, u32)>) -> Seq<
    Seq<Seq<char>>,
>
    decreases statuses.len(),
{
    if statuses.len() == 0 {
        Seq::empty()
    } else {
        let prev = dispatch(dir, statuses.drop_last());
        let s = statuses.last();
        if qualifies(s.1) {
            match invocation(dir, s.0) {
                Some(a) => prev.push(a),
                None => prev,
            }
        } else {
            prev
        }
    }
}

/// A path with its combined index and working-tree status bits.
#[derive(Debug)]
pub struct PathStatus {
    pub path: String,
    pub flags: u32,
}

/// The model of a status list.
pub open spec fn statuses_view(v: Seq<PathStatus>) -> Seq<(Seq<char>, u32)> {
    v.map_values(|s: PathStatus| (s.path@, s.flags))
}

/// The models of a list of argument vectors.
pub open spec fn argvs_view(v: Seq<Vec<String>>) -> Seq<Seq<Seq<char>>> {
    v.map_values(|a: Vec<String>| views(a@))
}

/// Relies on `std::path::Path::extension`: the extension of the path's file
/// name, which depends on the path alone, and none where the path holds no dot.
#[verifier::external_body]
fn path_extension(path: &str) -> (r: Option<String>)
    ensures
        match r {
            Some(e) => extension_of(path@) == Some(e@),
            None => extension_of(path@) is None,
        },
        (forall|i: int| 0 <= i < path@.len() ==> path@[i] != '.') ==> r is None,
{
    match std::path::Path::new(path).extension() {
        Some(e) => Some(e.to_string_lossy().into_owned()),
        None => None,
    }
}

/// Splits a comma-separated list of extensions and trims each of them.
pub fn parse_extensions(s: &str) -> (r: Vec<String>)
    ensures
        views(r@) == extensions_spec(s@),
{
    let parts = split_on(s, ',');
    let ghost ps = views(parts@);
    let mut out: Vec<String> = Vec::new();
    let mut i: usize = 0;
    while i < parts.len()
        invariant
            i <= parts@.len(),
            ps == views(parts@),
            views(out@) == ps.subrange(0, i as int).map_values(|p: Seq<char>| trimmed(p)),
        decreases parts@.len() - i,
    {
        let ghost before = out@;
        out.push(trim(parts[i].as_str()));
        assert(views(out@) =~= views(before).push(trimmed(ps[i as int])));
        assert(ps.subrange(0, i + 1).map_values(|p: Seq<char>| trimmed(p)) =~= ps.subrange(
            0,
            i as int,
        ).map_values(|p: Seq<char>| trimmed(p)).push(trimmed(ps[i as int])));
        i = i + 1;
    }
    assert(ps.subrange(0, parts@.len() as int) =~= ps);
    out
}

/// Finds the value of option `k` in a group.
fn find_option(opts: &Vec<(String, String)>, k: &str) -> (r: Option<String>)
    ensures
        match r {
            Some(v) => lookup(pairs_view(opts@), k@) == Some(v@),
            None => lookup(pairs_view(opts@), k@) is None,
        },
{
    let key = String::from_str(k);
    let mut i: usize = 0;
    let ghost s = pairs_view(opts@);
    while i < opts.len()
        invariant
            i <= opts@.len(),
            s == pairs_view(opts@),
            key@ == k@,
            forall|j: int| 0 <= j < i ==> s[j].0 != k@,
        decreases opts@.len() - i,
    {
        if opts[i].0 == key {
            assert(crate::config::is_first_key(s, k@, i as int));
            let ghost c = choose|c: int| crate::config::is_first_key(s, k@, c);
            assert(c == i);
            return Some(opts[i].1.clone());
        }
        i = i + 1;
    }
    assert(!exists|c: int| crate::config::is_first_key(s, k@, c));
    None
}

/// Turns the options of one language into a formatter.
fn formatter_from_group(g: &LanguageOptions) -> (r: Result<
    (String, FormatterOption),
    ConfigError,
>)
    ensures
        match r {
            Ok(f) => formatter_of(g@) == Ok::<_, (Seq<char>, Seq<char>)>(
                (f.0@, f.1@.0, f.1@.1),
            ),
            Err(e) => formatter_of(g@) == Err::<(Seq<char>, Seq<char>, Seq<Seq<char>>), _>(e@),
        },
{
    let command = match find_option(&g.options, COMMAND_OPTION) {
        Some(c) => c,
        None => {
            return Err(
                ConfigError::MissingOption {
                    language: g.language.clone(),
                    option: String::from_str(COMMAND_OPTION),
                },
            );
        },
    };
    let extensions = match find_option(&g.options, EXTENSIONS_OPTION) {
        Some(x) => x,
        None => {
            return Err(
                ConfigError::MissingOption {
                    language: g.language.clone(),
                    option: String::from_str(EXTENSIONS_OPTION),
                },
            );
        },
    };
    let parsed = parse_extensions(extensions.as_str());
    Ok((g.language.clone(), FormatterOption { command, extensions: parsed }))
}

/// The directory of formatters, keyed by language name in configuration order.
pub struct Formatter {
    formatters: Vec<(String, FormatterOption)>,
}

impl View for Formatter {
    type V = DirectoryModel;

    closed spec fn view(&self) -> DirectoryModel {
        self.formatters@.map_values(
            |f: (String, FormatterOption)| (f.0@, f.1.command@, views(f.1.extensions@)),
        )
    }
}

impl Formatter {
    /// Builds the directory from collected option groups. Every group must
    /// have both a `command` and an `extensions` option: the first group, in
    /// order, that lacks one fails the whole construction with the missing
    /// option, `command` being checked first.
    pub fn from_options(opts: &CollectedOptions) -> (r: Result<Formatter, ConfigError>)
        ensures
            r is Ok <==> directory_of(groups_view(opts.groups@)) is Ok,
            r is Ok ==> r->Ok_0@ == directory_of(groups_view(opts.groups@))->Ok_0,
            r is Err ==> r->Err_0@ == directory_of(groups_view(opts.groups@))->Err_0,
    {
        let ghost gs = groups_view(opts.groups@);
        let mut formatters: Vec<(String, FormatterOption)> = Vec::new();
        let mut i: usize = 0;
        assert(gs.subrange(0, 0) =~= Seq::<(Seq<char>, PairsModel)>::empty());
        assert((Formatter { formatters })@ =~= Seq::<(Seq<char>, Seq<char>, Seq<Seq<char>>)>::empty());
        while i < opts.groups.len()
            invariant
                i <= opts.groups@.len(),
                gs == groups_view(opts.groups@),
                directory_of(gs.subrange(0, i as int)) == Ok::<_, (Seq<char>, Seq<char>)>(
                    (Formatter { formatters })@,
                ),
            decreases opts.groups@.len() - i,
        {
            let ghost next = gs.subrange(0, i + 1);
            assert(next.drop_last() =~= gs.subrange(0, i as int));
            assert(next.last() == gs[i as int]);
            let ghost before = (Formatter { formatters })@;
            match formatter_from_group(&opts.groups[i]) {
                Ok(f) => {
                    formatters.push(f);
                    assert((Formatter { formatters })@ =~= before.push((f.0@, f.1@.0, f.1@.1)));
                },
                Err(e) => {
                    proof {
                        lemma_directory_error_persists(gs, i as int + 1);
                        lemma_directory_error_prefix(gs, i as int + 1, gs.len() as int);
                        assert(gs.subrange(0, gs.len() as int) =~= gs);
                    }
                    return Err(e);
                },
            }
            i = i + 1;
        }
        assert(gs.subrange(0, opts.groups@.len() as int) =~= gs);
        Ok(Formatter { formatters })
    }

    /// Builds the directory from configuration entries, given as name/value
    /// pairs in the order the store lists them.
    pub fn from_config_entries(entries: &Vec<(String, String)>) -> (r: Result<
        Formatter,
        ConfigError,
    >)
        ensures
            r is Ok <==> directory_of(groups_of(pairs_view(entries@))) is Ok,
            r is Ok ==> r->Ok_0@ == directory_of(groups_of(pairs_view(entries@)))->Ok_0,
            r is Err ==> r->Err_0@ == directory_of(groups_of(pairs_view(entries@)))->Err_0,
    {
        let opts = collect_formatters(entries);
        Formatter::from_options(&opts)
    }

    /// The command template of the first formatter, in directory order, whose
    /// extensions hold `ext` exactly (case included).
    pub fn command_for_extension(&self, ext: &str) -> (r: Option<String>)
        ensures
            match r {
                Some(c) => command_for(self@, ext@) == Some(c@),
                None => command_for(self@, ext@) is None,
            },
    {
        let target = String::from_str(ext);
        let ghost dir = self@;
        let mut i: usize = 0;
        assert(dir.subrange(0, dir.len() as int) =~= dir);
        while i < self.formatters.len()
            invariant
                i <= dir.len(),
                dir.len() == self.formatters@.len(),
                dir == self@,
                target@ == ext@,
                command_for(dir, ext@) == command_for(dir.subrange(i as int, dir.len() as int), ext@),
            decreases dir.len() - i,
        {
            let ghost rest = dir.subrange(i as int, dir.len() as int);
            assert(rest.drop_first() =~= dir.subrange(i + 1, dir.len() as int));
            assert(rest[0] == dir[i as int]);
            let exts = &self.formatters[i].1.extensions;
            let mut j: usize = 0;
            while j < exts.len()
                invariant
                    j <= exts@.len(),
                    i < dir.len(),
                    dir.len() == self.formatters@.len(),
                    dir == self@,
                    exts == self.formatters@[i as int].1.extensions,
                    target@ == ext@,
                    rest == dir.subrange(i as int, dir.len() as int),
                    rest[0] == dir[i as int],
                    command_for(dir, ext@) == command_for(rest, ext@),
                    views(exts@) == dir[i as int].2,
                    forall|k: int| 0 <= k < j ==> views(exts@)[k] != ext@,
                decreases exts@.len() - j,
            {
                if exts[j] == target {
                    assert(views(exts@)[j as int] == ext@);
                    assert(dir[i as int].2.contains(ext@));
                    assert(dir[i as int].1 == self.formatters@[i as int].1.command@);
                    assert(command_for(rest, ext@) == Some(rest[0].1));
                    return Some(self.formatters[i].1.command.clone());
                }
                j = j + 1;
            }
            assert(!dir[i as int].2.contains(ext@));
            i = i + 1;
        }
        None
    }

    /// The command template that a path resolves to: none where the path has
    /// no extension or no formatter lists it.
    pub fn get_command(&self, path: &str) -> (r: Option<String>)
        ensures
            match r {
                Some(c) => resolve(self@, path@) == Some(c@),
                None => resolve(self@, path@) is None,
            },
            extension_of(path@) is None ==> r is None,
    {
        match path_extension(path) {
            None => None,
            Some(e) => self.command_for_extension(e.as_str()),
        }
    }

    /// The argument vector to launch for a path, if it resolves to a command.
    pub fn execute_formatter(&self, path: &str) -> (r: Option<Vec<String>>)
        ensures
            match r {
                Some(a) => invocation(self@, path@) == Some(views(a@)) && a@.len() >= 1,
                None => invocation(self@, path@) is None,
            },
    {
        match self.get_command(path) {
            None => None,
            Some(c) => Some(command_argv(c.as_str(), path)),
        }
    }

    /// The argument vectors to launch for the paths of a status scan, in
    /// order: one for each path that is exactly new or exactly modified in the
    /// index and resolves to a command. A path also changed in the working
    /// tree is left alone.
    pub fn format_index(&self, statuses: &Vec<PathStatus>) -> (r: Vec<Vec<String>>)
        ensures
            argvs_view(r@) == dispatch(self@, statuses_view(statuses@)),
            forall|k: int| 0 <= k < r@.len() ==> r@[k]@.len() >= 1,
    {
        let ghost all = statuses_view(statuses@);
        let mut out: Vec<Vec<String>> = Vec::new();
        let mut i: usize = 0;
        assert(all.subrange(0, 0) =~= Seq::<(Seq<char>, u32)>::empty());
        assert(argvs_view(out@) =~= Seq::<Seq<Seq<char>>>::empty());
        while i < statuses.len()
            invariant
                i <= statuses@.len(),
                all == statuses_view(statuses@),
                argvs_view(out@) == dispatch(self@, all.subrange(0, i as int)),
                forall|k: int| 0 <= k < out@.len() ==> out@[k]@.len() >= 1,
            decreases statuses@.len() - i,
        {
            let ghost next = all.subrange(0, i + 1);
            assert(next.drop_last() =~= all.subrange(0, i as int));
            assert(next.last() == all[i as int]);
            let st = &statuses[i];
            if should_format(st.flags) {
                match self.execute_formatter(st.path.as_str()) {
                    Some(a) => {
                        let ghost before = out@;
                        out.push(a);
                        assert(argvs_view(out@) =~= argvs_view(before).push(views(a@)));
                    },
                    None => {},
                }
            }
            i = i + 1;
        }
        assert(all.subrange(0, statuses@.len() as int) =~= all);
        out
    }
}

/// Once a prefix of the groups fails, every longer prefix fails the same way.
proof fn lemma_directory_error_persists(gs: GroupsModel, n: int)
    requires
        0 < n <= gs.len(),
        formatter_of(gs[n - 1]) is Err || directory_of(gs.subrange(0, n - 1)) is Err,
    ensures
        directory_of(gs.subrange(0, n)) is Err,
        directory_of(gs.subrange(0, n)) == (if directory_of(gs.subrange(0, n - 1)) is Err {
            directory_of(gs.subrange(0, n - 1))
        } else {
            Err(formatter_of(gs[n - 1])->Err_0)
        }),
{
    assert(gs.subrange(0, n).drop_last() =~= gs.subrange(0, n - 1));
}

/// An error of a prefix of the groups is the error of every longer prefix.
proof fn lemma_directory_error_prefix(gs: GroupsModel, n: int, m: int)
    requires
        0 <= n <= m <= gs.len(),
        directory_of(gs.subrange(0, n)) is Err,
    ensures
        directory_of(gs.subrange(0, m)) == directory_of(gs.subrange(0, n)),
    decreases m - n,
{
    if m > n {
        lemma_directory_error_prefix(gs, n, m - 1);
        assert(gs.subrange(0, m).drop_last() =~= gs.subrange(0, m - 1));
    }
}

/// Whether a path with these status bits qualifies for formatting: exactly
/// new in the index, or exactly modified in the index.
pub fn should_format(flags: u32) -> (r: bool)
    ensures
        r == qualifies(flags),
{
    flags == INDEX_NEW || flags == INDEX_MODIFIED
}

/// The argument vector for a template and a path: every placeholder replaced
/// by the path, then split at single spaces. The first element is the program.
pub fn command_argv(template: &str, path: &str) -> (r: Vec<String>)
    ensures
        views(r@) == argv_spec(template@, path@),
        r@.len() >= 1,
{
    proof {
        reveal_strlit("{{STAGED_FILE}}");
    }
    let resolved = replace_all(template, FILE_TEMPLATE, path);
    split_on(resolved.as_str(), ' ')
}

/// A configuration in which some language group lacks its command or its
/// extensions yields no directory: construction fails as a whole.
pub proof fn lemma_incomplete_group_rejected(groups: GroupsModel, i: int)
    requires
        0 <= i < groups.len(),
        !is_complete(groups[i]),
    ensures
        directory_of(groups) is Err,
    decreases groups.len(),
{
    if i < groups.len() - 1 {
        lemma_incomplete_group_rejected(groups.drop_last(), i);
    }
}

/// Resolution by extension compares whole extensions exactly, case
/// included: an extension resolves to a command if and only if some formatter
/// lists a string equal to it, and the command is that of such a formatter.
pub proof fn lemma_extension_match_exact(dir: DirectoryModel, ext: Seq<char>)
    ensures
        command_for(dir, ext) is Some <==> exists|i: int| 0 <= i < dir.len() && dir[i].2.contains(ext),
        command_for(dir, ext) is Some ==> exists|i: int|
            0 <= i < dir.len() && dir[i].2.contains(ext) && dir[i].1 == command_for(dir, ext)->Some_0,
    decreases dir.len(),
{
    if dir.len() > 0 {
        let tail = dir.drop_first();
        lemma_extension_match_exact(tail, ext);
        if command_for(tail, ext) is Some {
            let j = choose|j: int|
                0 <= j < tail.len() && tail[j].2.contains(ext) && tail[j].1 == command_for(
                    tail,
                    ext,
                )->Some_0;
            assert(dir[j + 1] == tail[j]);
        }
        if exists|i: int| 0 <= i < dir.len() && dir[i].2.contains(ext) {
            let i = choose|i: int| 0 <= i < dir.len() && dir[i].2.contains(ext);
            if i > 0 {
                assert(tail[i - 1] == dir[i]);
            }
        }
    }
}

/// A status that contributes nothing leaves the dispatch of the others
/// unchanged, wherever it stands.
proof fn lemma_inert_status(
    dir: DirectoryModel,
    before: Seq<(Seq<char>, u32)>,
    s: (Seq<char>, u32),
    after: Seq<(Seq<char>, u32)>,
)
    requires
        !qualifies(s.1) || invocation(dir, s.0) is None,
    ensures
        dispatch(dir, before + seq![s] + after) == dispatch(dir, before + after),
    decreases after.len(),
{
    let with = before + seq![s] + after;
    let without = before + after;
    if after.len() == 0 {
        assert(with.drop_last() =~= before);
        assert(without =~= before);
    } else {
        lemma_inert_status(dir, before, s, after.drop_last());
        assert(with.drop_last() =~= before + seq![s] + after.drop_last());
        assert(without.drop_last() =~= before + after.drop_last());
        assert(with.last() == without.last());
    }
}

/// A path without an extension resolves to no command, and is never
/// dispatched, wherever it stands in the status list and whatever its flags.
pub proof fn lemma_no_extension_not_dispatched(
    dir: DirectoryModel,
    before: Seq<(Seq<char>, u32)>,
    path: Seq<char>,
    flags: u32,
    after: Seq<(Seq<char>, u32)>,
)
    requires
        extension_of(path) is None,
    ensures
        resolve(dir, path) is None,
        dispatch(dir, before + seq![(path, flags)] + after) == dispatch(dir, before + after),
{
    lemma_inert_status(dir, before, (path, flags), after);
}

/// A path flagged both as modified in the index and as modified in the
/// working tree is never dispatched, whatever formatter it would match.
pub proof fn lemma_contested_path_not_dispatched(
    dir: DirectoryModel,
    before: Seq<(Seq<char>, u32)>,
    path: Seq<char>,
    flags: u32,
    after: Seq<(Seq<char>, u32)>,
)
    requires
        flags & INDEX_MODIFIED != 0,
        flags & WT_MODIFIED != 0,
    ensures
        dispatch(dir, before + seq![(path, flags)] + after) == dispatch(dir, before + after),
{
    assert(flags & 2u32 != 0 && flags & 256u32 != 0 ==> flags != 1u32 && flags != 2u32)
        by (bit_vector);
    lemma_inert_status(dir, before, (path, flags), after);
}

/// A path flagged only as new, or only as modified, in the index that
/// resolves to a command is dispatched, with every placeholder of the command
/// replaced by the path exactly as given, split at single spaces.
pub proof fn lemma_staged_path_dispatched(
    dir: DirectoryModel,
    before: Seq<(Seq<char>, u32)>,
    path: Seq<char>,
    flags: u32,
    command: Seq<char>,
)
    requires
        flags == INDEX_NEW || flags == INDEX_MODIFIED,
        resolve(dir, path) == Some(command),
    ensures
        dispatch(dir, before.push((path, flags))) == dispatch(dir, before).push(
            split_spec(replace_spec(command, FILE_TEMPLATE@, path), ' '),
        ),
{
    assert(before.push((path, flags)).drop_last() =~= before);
}

} // verus!
