use vstd::prelude::*;
use crate::service::{OptsView, ServiceOpts};

verus! {

/// Why service definitions could not be read.
#[derive(Debug)]
pub enum ReadError {
    /// Neither `<name>.yaml` nor `<name>.yml` exists in the directory.
    NotFound { name: String, dir: String },
    /// The directory holds an entry that is not a regular file.
    NotRegularFile { dir: String, path: String },
    /// The file system reported an error.
    Io(String),
    /// A file name does not have the shape `<name>.<extension>`.
    InvalidFileName(String),
    /// A file name has an extension other than `yaml` or `yml`.
    InvalidExtension(String),
    /// The entry at this path has a name that is not valid unicode.
    NotUnicode(String),
    /// The file's contents are not a valid service definition.
    Parse(String),
}

/// Abstract form of a reading error.
pub enum ReadErrorView {
    NotFound { name: Seq<char>, dir: Seq<char> },
    NotRegularFile { dir: Seq<char>, path: Seq<char> },
    Io(Seq<char>),
    InvalidFileName(Seq<char>),
    InvalidExtension(Seq<char>),
    NotUnicode(Seq<char>),
    Parse(Seq<char>),
}

impl View for ReadError {
    type V = ReadErrorView;

    open spec fn view(&self) -> ReadErrorView {
        match self {
            ReadError::NotFound { name, dir } => ReadErrorView::NotFound { name: name@, dir: dir@ },
            ReadError::NotRegularFile { dir, path } => ReadErrorView::NotRegularFile {
                dir: dir@,
                path: path@,
            },
            ReadError::Io(m) => ReadErrorView::Io(m@),
            ReadError::InvalidFileName(m) => ReadErrorView::InvalidFileName(m@),
            ReadError::InvalidExtension(m) => ReadErrorView::InvalidExtension(m@),
            ReadError::NotUnicode(m) => ReadErrorView::NotUnicode(m@),
            ReadError::Parse(m) => ReadErrorView::Parse(m@),
        }
    }
}

// ---------------------------------------------------------------------------
// Service names from file names
// ---------------------------------------------------------------------------

/// `s` has a dot at position `i` and nowhere else: splitting it at dots gives two parts.
pub open spec fn only_dot_at(s: Seq<char>, i: int) -> bool {
    &&& 0 <= i < s.len()
    &&& s[i] == '.'
    &&& forall|j: int| 0 <= j < s.len() && j != i ==> s[j] != '.'
}

pub open spec fn has_single_dot(s: Seq<char>) -> bool {
    exists|i: int| only_dot_at(s, i)
}

pub open spec fn single_dot_index(s: Seq<char>) -> int {
    choose|i: int| only_dot_at(s, i)
}

/// The extensions that service definition files may have.
pub open spec fn yaml_extension(e: Seq<char>) -> bool {
    e == seq!['y', 'a', 'm', 'l'] || e == seq!['y', 'm', 'l']
}

/// The service that a file named `f` defines: `<name>.yaml` or `<name>.yml` defines `<name>`.
pub open spec fn service_name_of(f: Seq<char>) -> Result<Seq<char>, ReadErrorView> {
    if !has_single_dot(f) {
        Err(ReadErrorView::InvalidFileName(f))
    } else if !yaml_extension(f.subrange(single_dot_index(f) + 1, f.len() as int)) {
        Err(ReadErrorView::InvalidExtension(f))
    } else {
        Ok(f.subrange(0, single_dot_index(f)))
    }
}

/// Returns the name of the service that the file named `file_name` defines.
#[verifier::spinoff_prover]
pub fn get_service_name(file_name: &str) -> (res: Result<String, ReadError>)
    ensures
        res matches Ok(n) ==> service_name_of(file_name@) == Ok::<Seq<char>, ReadErrorView>(n@),
        res matches Err(e) ==> service_name_of(file_name@) == Err::<Seq<char>, ReadErrorView>(e@),
{
    let n = file_name.unicode_len();
    let mut dots: usize = 0;
    let mut dot: usize = 0;
    for i in 0..n
        invariant
            n == file_name@.len(),
            dots <= i,
            dots == 0 ==> forall|j: int| 0 <= j < i ==> file_name@[j] != '.',
            dots >= 1 ==> dot < i && file_name@[dot as int] == '.',
            dots == 1 ==> forall|j: int| 0 <= j < i && j != dot ==> file_name@[j] != '.',
            dots >= 2 ==> exists|j: int| 0 <= j < i && j != dot && file_name@[j] == '.',
    {
        if file_name.get_char(i) == '.' {
            if dots == 0 {
                dot = i;
            }
            dots = dots + 1;
        }
    }
    let ghost f = file_name@;
    if dots != 1 {
        proof {
            if has_single_dot(f) {
                let k = choose|k: int| only_dot_at(f, k);
                if dots >= 2 {
                    let j = choose|j: int| 0 <= j < n && j != dot && f[j] == '.';
                    assert(j == k);
                    assert(dot as int == k);
                }
            }
        }
        return Err(ReadError::InvalidFileName(file_name.to_owned()));
    }
    assert(only_dot_at(f, dot as int));
    assert(single_dot_index(f) == dot as int);
    let ext = file_name.substring_char(dot + 1, n);
    let ext_len = ext.unicode_len();
    let is_yaml = ext_len == 4 && ext.get_char(0) == 'y' && ext.get_char(1) == 'a'
        && ext.get_char(2) == 'm' && ext.get_char(3) == 'l';
    let is_yml = ext_len == 3 && ext.get_char(0) == 'y' && ext.get_char(1) == 'm'
        && ext.get_char(2) == 'l';
    proof {
        if is_yaml {
            assert(ext@ =~= seq!['y', 'a', 'm', 'l']);
        }
        if is_yml {
            assert(ext@ =~= seq!['y', 'm', 'l']);
        }
    }
    if !is_yaml && !is_yml {
        return Err(ReadError::InvalidExtension(file_name.to_owned()));
    }
    let name = file_name.substring_char(0, dot);
    Ok(name.to_owned())
}

// ---------------------------------------------------------------------------
// Service definitions
// ---------------------------------------------------------------------------

/// `o` with its name replaced by `name`.
pub open spec fn named(o: OptsView, name: Seq<char>) -> OptsView {
    OptsView { name: name, ..o }
}

/// A decoded service definition takes the name of the file it came from.
pub open spec fn read_options_spec(name: Seq<char>, parsed: Result<OptsView, Seq<char>>) -> Result<OptsView, ReadErrorView> {
    match parsed {
        Ok(o) => Ok(named(o, name)),
        Err(m) => Err(ReadErrorView::Parse(m)),
    }
}

pub open spec fn parsed_view(parsed: Result<ServiceOpts, String>) -> Result<OptsView, Seq<char>> {
    match parsed {
        Ok(o) => Ok(o@),
        Err(m) => Err(m@),
    }
}

/// Builds the definition of service `name` from the decoded contents of its file
/// (or the decoder's complaint about them).
pub fn read_service_options(name: String, parsed: Result<ServiceOpts, String>) -> (res: Result<ServiceOpts, ReadError>)
    ensures
        res matches Ok(o) ==> read_options_spec(name@, parsed_view(parsed)) == Ok::<OptsView, ReadErrorView>(o@),
        res matches Err(e) ==> read_options_spec(name@, parsed_view(parsed)) == Err::<OptsView, ReadErrorView>(e@),
{
    match parsed {
        Ok(mut opts) => {
            opts.name = name;
            Ok(opts)
        },
        Err(m) => Err(ReadError::Parse(m)),
    }
}

pub open spec fn with_suffix(name: Seq<char>, yaml: bool) -> Seq<char> {
    if yaml {
        name + seq!['.', 'y', 'a', 'm', 'l']
    } else {
        name + seq!['.', 'y', 'm', 'l']
    }
}

/// The two files that may define service `name`, in the order they are tried:
/// `<name>.yaml`, then `<name>.yml`.
pub fn service_file_names(name: &str) -> (res: (String, String))
    ensures
        res.0@ == with_suffix(name@, true),
        res.1@ == with_suffix(name@, false),
{
    let yaml = name.to_owned().concat(".yaml");
    let yml = name.to_owned().concat(".yml");
    proof {
        reveal_strlit(".yaml");
        reveal_strlit(".yml");
        assert(".yaml"@ =~= seq!['.', 'y', 'a', 'm', 'l']);
        assert(".yml"@ =~= seq!['.', 'y', 'm', 'l']);
    }
    (yaml, yml)
}

pub open spec fn opened_view(f: Option<Result<ServiceOpts, String>>) -> Option<Result<OptsView, Seq<char>>> {
    match f {
        Some(p) => Some(parsed_view(p)),
        None => None,
    }
}

/// Which file defines service `name`: the first of `<name>.yaml` and `<name>.yml` that
/// could be opened decides, and its contents must decode.
pub open spec fn try_read_spec(
    name: Seq<char>,
    dir: Seq<char>,
    yaml: Option<Result<OptsView, Seq<char>>>,
    yml: Option<Result<OptsView, Seq<char>>>,
) -> Result<OptsView, ReadErrorView> {
    match yaml {
        Some(p) => read_options_spec(name, p),
        None => match yml {
            Some(p) => read_options_spec(name, p),
            None => Err(ReadErrorView::NotFound { name: name, dir: dir }),
        },
    }
}

/// Reads the definition of service `name` from directory `dir`, given what opening
/// `<name>.yaml` and `<name>.yml` there gave: `None` for a file that could not be
/// opened, else the decoded contents.
pub fn try_read_service(
    name: String,
    dir: String,
    yaml: Option<Result<ServiceOpts, String>>,
    yml: Option<Result<ServiceOpts, String>>,
) -> (res: Result<ServiceOpts, ReadError>)
    ensures
        res matches Ok(o) ==> try_read_spec(name@, dir@, opened_view(yaml), opened_view(yml))
            == Ok::<OptsView, ReadErrorView>(o@),
        res matches Err(e) ==> try_read_spec(name@, dir@, opened_view(yaml), opened_view(yml))
            == Err::<OptsView, ReadErrorView>(e@),
{
    if let Some(parsed) = yaml {
        return read_service_options(name, parsed);
    }
    if let Some(parsed) = yml {
        return read_service_options(name, parsed);
    }
    Err(ReadError::NotFound { name, dir })
}


// ---------------------------------------------------------------------------
// The definitions found in a directory
// ---------------------------------------------------------------------------

pub open spec fn opts_view_seq(s: Seq<ServiceOpts>) -> Seq<OptsView> {
    s.map_values(|o: ServiceOpts| o@)
}

/// No two definitions have the same name.
pub open spec fn names_distinct(s: Seq<OptsView>) -> bool {
    forall|i: int, j: int| 0 <= i < s.len() && 0 <= j < s.len() && i != j ==> s[i].name != s[j].name
}

pub open spec fn has_name(s: Seq<OptsView>, name: Seq<char>) -> bool {
    exists|i: int| 0 <= i < s.len() && s[i].name == name
}

pub open spec fn position_of(s: Seq<OptsView>, name: Seq<char>) -> int {
    choose|i: int| 0 <= i < s.len() && s[i].name == name
}

/// Adding a definition replaces the one of the same name, if any, in place;
/// otherwise it comes last.
pub open spec fn insert_opts(s: Seq<OptsView>, o: OptsView) -> Seq<OptsView> {
    if has_name(s, o.name) {
        s.update(position_of(s, o.name), o)
    } else {
        s.push(o)
    }
}

/// Service definitions keyed by service name, in the order they were first added.
#[derive(Debug)]
pub struct OptsMap {
    entries: Vec<ServiceOpts>,
}

impl View for OptsMap {
    type V = Seq<OptsView>;

    closed spec fn view(&self) -> Seq<OptsView> {
        opts_view_seq(self.entries@)
    }
}

impl OptsMap {
    /// The map holds at most one definition per name.
    pub open spec fn wf(&self) -> bool {
        names_distinct(self@)
    }

    pub fn new() -> (res: OptsMap)
        ensures
            res.wf(),
            res@ == Seq::<OptsView>::empty(),
    {
        let res = OptsMap { entries: Vec::new() };
        assert(res@ =~= Seq::<OptsView>::empty());
        res
    }

    pub fn len(&self) -> (n: usize)
        ensures
            n == self@.len(),
    {
        self.entries.len()
    }

    /// The definitions, in order.
    pub fn entries(&self) -> (res: &Vec<ServiceOpts>)
        ensures
            opts_view_seq(res@) == self@,
    {
        &self.entries
    }

    /// Is there a definition named `name`?
    pub fn contains_key(&self, name: &String) -> (res: bool)
        ensures
            res == has_name(self@, name@),
    {
        let mut i: usize = 0;
        while i < self.entries.len()
            invariant
                i <= self.entries@.len(),
                self@ == opts_view_seq(self.entries@),
                forall|j: int| 0 <= j < i ==> self@[j].name != name@,
            decreases self.entries@.len() - i,
        {
            if self.entries[i].name == *name {
                assert(self@[i as int].name == name@);
                return true;
            }
            i = i + 1;
        }
        false
    }

    /// Adds `opts`, replacing the definition of the same name if there is one.
    pub fn insert(&mut self, opts: ServiceOpts)
        requires
            old(self).wf(),
        ensures
            final(self).wf(),
            final(self)@ == insert_opts(old(self)@, opts@),
    {
        let ghost s = self@;
        let mut i: usize = 0;
        while i < self.entries.len()
            invariant
                i <= self.entries@.len(),
                s == opts_view_seq(self.entries@),
                s == old(self)@,
                names_distinct(s),
                forall|j: int| 0 <= j < i ==> s[j].name != opts@.name,
            decreases self.entries@.len() - i,
        {
            if self.entries[i].name == opts.name {
                proof {
                    assert(s[i as int] == self.entries@[i as int]@);
                    assert(has_name(s, opts@.name));
                    let p = position_of(s, opts@.name);
                    assert(s[p].name == s[i as int].name);
                    assert(p == i as int);
                }
                self.entries[i] = opts;
                assert(self@ =~= s.update(i as int, opts@));
                return;
            }
            i = i + 1;
        }
        self.entries.push(opts);
        assert(self@ =~= s.push(opts@));
    }
}

/// What the file system said about one entry of a directory of definitions.
#[derive(Debug)]
pub struct DirEntryReport {
    /// The entry's path, for messages.
    pub path: String,
    /// Whether the entry is a regular file.
    pub is_file: bool,
    /// Why opening the file failed, if it did.
    pub open_failure: Option<String>,
    /// The entry's file name, if it is valid unicode.
    pub file_name: Option<String>,
    /// The decoded contents of the file, or the decoder's complaint.
    pub parsed: Result<ServiceOpts, String>,
}

/// Abstract form of a directory entry report.
pub struct ReportView {
    pub path: Seq<char>,
    pub is_file: bool,
    pub open_failure: Option<Seq<char>>,
    pub file_name: Option<Seq<char>>,
    pub parsed: Result<OptsView, Seq<char>>,
}

pub open spec fn option_string_view(o: Option<String>) -> Option<Seq<char>> {
    match o {
        Some(s) => Some(s@),
        None => None,
    }
}

impl View for DirEntryReport {
    type V = ReportView;

    open spec fn view(&self) -> ReportView {
        ReportView {
            path: self.path@,
            is_file: self.is_file,
            open_failure: option_string_view(self.open_failure),
            file_name: option_string_view(self.file_name),
            parsed: parsed_view(self.parsed),
        }
    }
}

/// The effect of one directory entry on the definitions read so far: entries are checked
/// in this order: a regular file, that opens, with a valid name, whose contents decode.
pub open spec fn admit_spec(m: Seq<OptsView>, dir: Seq<char>, r: ReportView) -> Result<Seq<OptsView>, ReadErrorView> {
    if !r.is_file {
        Err(ReadErrorView::NotRegularFile { dir: dir, path: r.path })
    } else if r.open_failure is Some {
        Err(ReadErrorView::Io(r.open_failure->0))
    } else if r.file_name is None {
        Err(ReadErrorView::NotUnicode(r.path))
    } else {
        match service_name_of(r.file_name->0) {
            Err(e) => Err(e),
            Ok(name) => match read_options_spec(name, r.parsed) {
                Err(e) => Err(e),
                Ok(o) => Ok(insert_opts(m, o)),
            },
        }
    }
}

/// The definitions that a directory with these entries holds, entry by entry;
/// the first entry that fails decides the error.
pub open spec fn read_all_spec(dir: Seq<char>, reports: Seq<ReportView>) -> Result<Seq<OptsView>, ReadErrorView>
    decreases reports.len(),
{
    if reports.len() == 0 {
        Ok(Seq::empty())
    } else {
        match read_all_spec(dir, reports.drop_last()) {
            Err(e) => Err(e),
            Ok(m) => admit_spec(m, dir, reports.last()),
        }
    }
}

/// Takes one entry of the directory `dir` into the definitions read so far.
pub fn admit_entry(options: &mut OptsMap, dir: &str, report: DirEntryReport) -> (res: Result<(), ReadError>)
    requires
        old(options).wf(),
    ensures
        final(options).wf(),
        res is Ok ==> admit_spec(old(options)@, dir@, report@) == Ok::<Seq<OptsView>, ReadErrorView>(final(options)@),
        res matches Err(e) ==> admit_spec(old(options)@, dir@, report@) == Err::<Seq<OptsView>, ReadErrorView>(e@)
            && final(options)@ == old(options)@,
{
    if !report.is_file {
        return Err(ReadError::NotRegularFile { dir: dir.to_owned(), path: report.path });
    }
    if let Some(m) = report.open_failure {
        return Err(ReadError::Io(m));
    }
    let file_name = match report.file_name {
        Some(f) => f,
        None => return Err(ReadError::NotUnicode(report.path)),
    };
    let service_name = get_service_name(file_name.as_str())?;
    let opts = read_service_options(service_name, report.parsed)?;
    options.insert(opts);
    Ok(())
}

pub open spec fn reports_view(s: Seq<DirEntryReport>) -> Seq<ReportView> {
    s.map_values(|r: DirEntryReport| r@)
}

/// Reads the definitions of the directory `dir` from the reports on its entries, in order.
#[verifier::spinoff_prover]
pub fn read_all(dir: &str, reports: Vec<DirEntryReport>) -> (res: Result<OptsMap, ReadError>)
    ensures
        res matches Ok(m) ==> m.wf() && read_all_spec(dir@, reports_view(reports@)) == Ok::<Seq<OptsView>, ReadErrorView>(m@),
        res matches Err(e) ==> read_all_spec(dir@, reports_view(reports@)) == Err::<Seq<OptsView>, ReadErrorView>(e@),
{
    let ghost all = reports_view(reports@);
    let mut options = OptsMap::new();
    let mut rest = reports;
    let mut taken: usize = 0;
    let n = rest.len();
    while taken < n
        invariant
            options.wf(),
            taken <= n,
            n == all.len(),
            all == reports_view(reports@),
            rest@.len() == n - taken,
            forall|j: int| 0 <= j < rest@.len() ==> #[trigger] rest@[j]@ == all[taken + j],
            read_all_spec(dir@, all.take(taken as int)) == Ok::<Seq<OptsView>, ReadErrorView>(options@),
        decreases n - taken,
    {
        let report = rest.remove(0);
        proof {
            assert(all.take(taken + 1).drop_last() =~= all.take(taken as int));
            assert(all.take(taken + 1).last() == all[taken as int]);
        }
        match admit_entry(&mut options, dir, report) {
            Ok(()) => {},
            Err(e) => {
                proof {
                    assert(read_all_spec(dir@, all.take(taken + 1)) == Err::<Seq<OptsView>, ReadErrorView>(e@));
                    lemma_read_all_error_persists(dir@, all, (taken + 1) as int);
                    assert(read_all_spec(dir@, all) == Err::<Seq<OptsView>, ReadErrorView>(e@));
                    assert(all == reports_view(reports@));
                }
                return Err(e);
            },
        }
        taken = taken + 1;
    }
    assert(all.take(n as int) =~= all);
    Ok(options)
}

/// Once an entry fails, reading more entries does not change the error.
proof fn lemma_read_all_error_persists(dir: Seq<char>, all: Seq<ReportView>, k: int)
    requires
        0 <= k <= all.len(),
        read_all_spec(dir, all.take(k)) is Err,
    ensures
        read_all_spec(dir, all) == read_all_spec(dir, all.take(k)),
    decreases all.len() - k,
{
    if k == all.len() {
        assert(all.take(k) =~= all);
    } else {
        assert(all.take(k + 1).drop_last() =~= all.take(k));
        lemma_read_all_error_persists(dir, all, k + 1);
    }
}

} // verus!
