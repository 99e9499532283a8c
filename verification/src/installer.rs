//! The installer: where things go, which build to fetch, what an archive is
//! unpacked to, and the steps of an installation.

use crate::float::{
    double, of_integer, positive, product, quotient, single, smaller, Float32, Float64, Number,
};
use crate::pixel::num;
use crate::prefs::{join_path, text_view, under};
use crate::strings::{
    chars_of, contains, decimal, decimal_string, ends_with, finishes_with, has, piece, string_of,
    trim, trimmed,
};
use crate::timeline::{copy_items, views};
use flate2::read::GzDecoder;
use std::io::{Cursor, Read};
use vstd::prelude::*;
use vstd::string::*;

verus! {

/// The file name of the program in a build.
pub open spec fn program_name(windows: bool) -> Seq<char> {
    if windows {
        "FastCutter.exe"@
    } else {
        "rsedit"@
    }
}

/// The file name of the program.
pub fn exe_name(windows: bool) -> (r: &'static str)
    ensures
        r@ == program_name(windows),
{
    if windows {
        "FastCutter.exe"
    } else {
        "rsedit"
    }
}

/// The home directory: that of either variable, else the present one.
pub open spec fn home_path(home: Option<Seq<char>>, profile: Option<Seq<char>>) -> Seq<char> {
    match home {
        Some(h) => h,
        None => match profile {
            Some(p) => p,
            None => "."@,
        },
    }
}

/// The home directory.
pub fn home(named: Option<&str>, profile: Option<&str>) -> (r: String)
    ensures
        r@ == home_path(text_view(named), text_view(profile)),
{
    match named {
        Some(h) => h.to_string(),
        None => match profile {
            Some(p) => p.to_string(),
            None => ".".to_string(),
        },
    }
}

/// Two names under a base.
pub open spec fn under2(base: Seq<char>, a: Seq<char>, b: Seq<char>, windows: bool) -> Seq<char> {
    under(under(base, a, windows), b, windows)
}

fn join2(base: &str, a: &str, b: &str, windows: bool) -> (r: String)
    ensures
        r@ == under2(base@, a@, b@, windows),
{
    let first: String = join_path(base, a, windows);
    join_path(first.as_str(), b, windows)
}

/// Where the program is installed unless the user says otherwise.
pub open spec fn default_path(windows: bool, local: Option<Seq<char>>, home: Seq<char>) -> Seq<char> {
    if windows {
        let base = match local {
            Some(l) => l,
            None => "."@,
        };
        under2(base, "Programs"@, "FastCutter"@, true)
    } else {
        under(under2(home, ".local"@, "share"@, false), "rsedit"@, false)
    }
}

/// Where the program is installed unless the user says otherwise. `local` is the
/// directory for local application data.
pub fn default_dir(windows: bool, local: Option<&str>, home: &str) -> (r: String)
    ensures
        r@ == default_path(windows, text_view(local), home@),
{
    if windows {
        match local {
            Some(l) => join2(l, "Programs", "FastCutter", true),
            None => join2(".", "Programs", "FastCutter", true),
        }
    } else {
        let share: String = join2(home, ".local", "share", false);
        join_path(share.as_str(), "rsedit", false)
    }
}

/// The version that a version file holds: its text without white space round it,
/// where there is any.
pub open spec fn version_in(contents: Option<Seq<char>>) -> Option<Seq<char>> {
    match contents {
        Some(c) => if trimmed(c).len() == 0 {
            None
        } else {
            Some(trimmed(c))
        },
        None => None,
    }
}

/// The version that is installed, given what its version file holds.
pub fn installed_version(contents: Option<&str>) -> (r: Option<String>)
    ensures
        match version_in(text_view(contents)) {
            Some(v) => r.is_some() && r.unwrap()@ == v,
            None => r.is_none(),
        },
{
    match contents {
        Some(c) => {
            let v: Vec<char> = trim(&chars_of(c));
            if v.len() == 0 {
                None
            } else {
                Some(string_of(&v))
            }
        },
        None => None,
    }
}

/// The text without the letters `v` at its start.
pub open spec fn without_v(s: Seq<char>) -> Seq<char>
    decreases s.len(),
{
    if s.len() > 0 && s[0] == 'v' {
        without_v(s.drop_first())
    } else {
        s
    }
}

/// The line on what is installed.
pub fn installed_text(version: Option<&str>) -> (r: String)
    ensures
        r@ == (match text_view(version) {
            Some(v) => "Installed: v"@ + without_v(v),
            None => "Not installed"@,
        }),
{
    match version {
        Some(v) => {
            let cs: Vec<char> = chars_of(v);
            let mut i: usize = 0;
            assert(cs@.skip(0) =~= cs@);
            while i < cs.len() && cs[i] == 'v'
                invariant
                    i <= cs.len(),
                    without_v(cs@) == without_v(cs@.skip(i as int)),
                decreases cs.len() - i,
            {
                assert(cs@.skip(i as int).drop_first() =~= cs@.skip(i + 1));
                i = i + 1;
            }
            let rest: Vec<char> = piece(&cs, i, cs.len());
            assert(rest@ =~= cs@.skip(i as int));
            let mut s: String = "Installed: v".to_string();
            s.append(string_of(&rest).as_str());
            s
        },
        None => "Not installed".to_string(),
    }
}

/// The text with every quote doubled.
pub open spec fn quotes_doubled(s: Seq<char>) -> Seq<char>
    decreases s.len(),
{
    if s.len() == 0 {
        Seq::empty()
    } else if s.last() == '\'' {
        quotes_doubled(s.drop_last()).push('\'').push('\'')
    } else {
        quotes_doubled(s.drop_last()).push(s.last())
    }
}

/// A text as a literal of the shell on Windows.
pub open spec fn quoted(s: Seq<char>) -> Seq<char> {
    seq!['\''] + quotes_doubled(s) + seq!['\'']
}

/// A text as a literal of the shell on Windows.
pub fn ps_quote(s: &str) -> (r: String)
    ensures
        r@ == quoted(s@),
{
    let cs: Vec<char> = chars_of(s);
    let mut out: Vec<char> = vec!['\''];
    let mut i: usize = 0;
    proof {
        assert(out@ =~= seq!['\''] + quotes_doubled(cs@.take(0)));
    }
    while i < cs.len()
        invariant
            i <= cs.len(),
            out@ == seq!['\''] + quotes_doubled(cs@.take(i as int)),
        decreases cs.len() - i,
    {
        proof {
            assert(cs@.take(i + 1).drop_last() =~= cs@.take(i as int));
        }
        if cs[i] == '\'' {
            out.push('\'');
        }
        out.push(cs[i]);
        i = i + 1;
        assert(out@ =~= seq!['\''] + quotes_doubled(cs@.take(i as int)));
    }
    assert(cs@.take(cs.len() as int) =~= cs@);
    out.push('\'');
    assert(out@ =~= quoted(s@));
    string_of(&out)
}

/// How many quotes a text holds.
pub open spec fn quote_count(s: Seq<char>) -> nat
    decreases s.len(),
{
    if s.len() == 0 {
        0
    } else {
        quote_count(s.drop_last()) + (if s.last() == '\'' { 1nat } else { 0nat })
    }
}

/// A quoted text holds an even number of quotes between those round it: none of them
/// ends it early.
pub proof fn law_quotes_come_in_pairs(s: Seq<char>)
    ensures
        quote_count(quotes_doubled(s)) == 2 * quote_count(s),
        quoted(s).len() == s.len() + quote_count(s) + 2,
    decreases s.len(),
{
    if s.len() > 0 {
        law_quotes_come_in_pairs(s.drop_last());
        let q = quotes_doubled(s.drop_last());
        if s.last() == '\'' {
            let one = q.push('\'');
            let two = one.push('\'');
            assert(one.drop_last() =~= q);
            assert(quote_count(one) == quote_count(q) + 1);
            assert(two.drop_last() =~= one);
            assert(quote_count(two) == quote_count(one) + 1);
        } else {
            assert(q.push(s.last()).drop_last() =~= q);
        }
    }
}

/// A directory that a variable names, unless it is empty, else another.
pub open spec fn named_or(named: Option<Seq<char>>, other: Seq<char>) -> Seq<char> {
    match named {
        Some(d) => if d.len() > 0 {
            d
        } else {
            other
        },
        None => other,
    }
}

/// The directory for application data outside Windows.
pub fn data_home(named: Option<&str>, home: &str) -> (r: String)
    ensures
        r@ == named_or(text_view(named), under2(home@, ".local"@, "share"@, false)),
{
    if let Some(d) = named {
        if chars_of(d).len() > 0 {
            return d.to_string();
        }
    }
    join2(home, ".local", "share", false)
}

/// The desktop directory outside Windows.
pub fn desktop_dir(named: Option<&str>, home: &str) -> (r: String)
    ensures
        r@ == named_or(text_view(named), under(home@, "Desktop"@, false)),
{
    if let Some(d) = named {
        if chars_of(d).len() > 0 {
            return d.to_string();
        }
    }
    join_path(home, "Desktop", false)
}

/// The desktop directory on Windows: what the shell printed, else that of the user's
/// profile.
pub fn desktop_folder(printed: &str, profile: Option<&str>) -> (r: Result<String, String>)
    ensures
        if trimmed(printed@).len() > 0 {
            r matches Ok(d) && d@ == trimmed(printed@)
        } else {
            match text_view(profile) {
                Some(p) => r matches Ok(d) && d@ == under(p, "Desktop"@, true),
                None => r matches Err(e) && e@ == "no USERPROFILE"@,
            }
        },
{
    let d: Vec<char> = trim(&chars_of(printed));
    if d.len() > 0 {
        Ok(string_of(&d))
    } else {
        match profile {
            Some(p) => Ok(join_path(p, "Desktop", true)),
            None => Err("no USERPROFILE".to_string()),
        }
    }
}

/// The shortcut in the start menu on Windows.
pub fn start_menu_lnk(apps: Option<&str>) -> (r: Result<String, String>)
    ensures
        match text_view(apps) {
            Some(a) => r matches Ok(f) && f@ == under(
                under2(
                    under2(a, "Microsoft"@, "Windows"@, true),
                    "Start Menu"@,
                    "Programs"@,
                    true,
                ),
                "rsedit.lnk"@,
                true,
            ),
            None => r matches Err(e) && e@ == "no APPDATA"@,
        },
{
    match apps {
        Some(a) => {
            let w: String = join2(a, "Microsoft", "Windows", true);
            let p: String = join2(w.as_str(), "Start Menu", "Programs", true);
            Ok(join_path(p.as_str(), "rsedit.lnk", true))
        },
        None => Err("no APPDATA".to_string()),
    }
}

/// The entry in the applications menu outside Windows.
pub fn app_menu_file(data_home: &str) -> (r: String)
    ensures
        r@ == under2(data_home@, "applications"@, "rsedit.desktop"@, false),
{
    join2(data_home, "applications", "rsedit.desktop", false)
}

/// The shortcut on the desktop on Windows.
pub fn desktop_lnk(folder: Result<String, String>) -> (r: Result<String, String>)
    ensures
        match folder {
            Ok(f) => r matches Ok(l) && l@ == under(f@, "rsedit.lnk"@, true),
            Err(e) => r matches Err(x) && x@ == e@,
        },
{
    match folder {
        Ok(f) => Ok(join_path(f.as_str(), "rsedit.lnk", true)),
        Err(e) => Err(e),
    }
}

/// The shortcut on the desktop. `folder` is the desktop directory; on Windows, where
/// it could not be found out, the one of the home directory takes its place.
pub fn desktop_shortcut_file(windows: bool, folder: Result<String, String>, home: &str) -> (r: String)
    ensures
        r@ == (match folder {
            Ok(f) => under(
                f@,
                if windows {
                    "rsedit.lnk"@
                } else {
                    "rsedit.desktop"@
                },
                windows,
            ),
            Err(_) => under2(
                home@,
                "Desktop"@,
                if windows {
                    "rsedit.lnk"@
                } else {
                    "rsedit.desktop"@
                },
                windows,
            ),
        }),
{
    let name: &str = if windows {
        "rsedit.lnk"
    } else {
        "rsedit.desktop"
    };
    match folder {
        Ok(f) => join_path(f.as_str(), name, windows),
        Err(_) => join2(home, "Desktop", name, windows),
    }
}

/// The build of a release for a platform, by its file name.
pub open spec fn is_build(name: Seq<char>, windows: bool) -> bool {
    if windows {
        contains(name, "windows-portable"@)
    } else {
        ends_with(name, ".tar.gz"@) && contains(name, "linux-x86_64"@)
    }
}

/// Whether a file of a release is the build for a platform.
pub fn asset_pick(name: &str, windows: bool) -> (r: bool)
    ensures
        r == is_build(name@, windows),
{
    let n: Vec<char> = chars_of(name);
    if windows {
        has(&n, &chars_of("windows-portable"))
    } else {
        finishes_with(&n, &chars_of(".tar.gz")) && has(&n, &chars_of("linux-x86_64"))
    }
}

/// A file of a release.
#[derive(Debug, Clone)]
pub struct ReleaseAsset {
    pub name: String,
    pub browser_download_url: String,
    pub size: u64,
}

/// A release.
#[derive(Debug, Clone)]
pub struct Release {
    pub tag_name: String,
    pub assets: Vec<ReleaseAsset>,
}

/// The first build for a platform among the files of a release from the `i`th on.
pub open spec fn build_from(assets: Seq<ReleaseAsset>, windows: bool, i: int) -> Option<int>
    decreases assets.len() - i,
{
    if i < 0 || i >= assets.len() {
        None
    } else if is_build(assets[i].name@, windows) {
        Some(i)
    } else {
        build_from(assets, windows, i + 1)
    }
}

/// The first build for a platform among the files of a release.
pub fn find_build(assets: &Vec<ReleaseAsset>, windows: bool) -> (r: Option<usize>)
    ensures
        match build_from(assets@, windows, 0) {
            Some(i) => r.is_some() && r.unwrap() == i && i < assets.len(),
            None => r.is_none(),
        },
{
    let mut i: usize = 0;
    while i < assets.len()
        invariant
            i <= assets.len(),
            build_from(assets@, windows, 0) == build_from(assets@, windows, i as int),
        decreases assets.len() - i,
    {
        if asset_pick(assets[i].name.as_str(), windows) {
            return Some(i);
        }
        i = i + 1;
    }
    None
}

/// What an entry of an archive is.
#[derive(Debug, Clone, Copy, PartialEq, Eq, Structural)]
pub enum EntryKind {
    File,
    Folder,
    Other,
}

/// What an entry is, by the two questions that can be asked of it.
pub open spec fn kind_of(folder: bool, file: bool) -> EntryKind {
    if folder {
        EntryKind::Folder
    } else if file {
        EntryKind::File
    } else {
        EntryKind::Other
    }
}

fn entry_kind(folder: bool, file: bool) -> (r: EntryKind)
    ensures
        r == kind_of(folder, file),
{
    if folder {
        EntryKind::Folder
    } else if file {
        EntryKind::File
    } else {
        EntryKind::Other
    }
}

/// An entry of an archive: its name, whether it is a folder or a file, what it holds, and
/// what went wrong in reading that.
#[derive(Debug, Clone)]
pub struct RawEntry {
    pub name: String,
    pub folder: bool,
    pub file: bool,
    pub data: Vec<u8>,
    pub fault: Option<String>,
}

/// An entry of an archive by its values.
pub struct RawEntryView {
    pub name: Seq<char>,
    pub folder: bool,
    pub file: bool,
    pub data: Seq<u8>,
    pub fault: Option<Seq<char>>,
}

pub open spec fn string_view(s: Option<String>) -> Option<Seq<char>> {
    match s {
        Some(t) => Some(t@),
        None => None,
    }
}

impl View for RawEntry {
    type V = RawEntryView;

    open spec fn view(&self) -> RawEntryView {
        RawEntryView {
            name: self.name@,
            folder: self.folder,
            file: self.file,
            data: self.data@,
            fault: string_view(self.fault),
        }
    }
}

/// What reading an archive gave: its entries, or what went wrong in getting at one;
/// or what is wrong with all of it.
pub struct Contents {
    pub entries: Seq<Result<RawEntryView, Seq<char>>>,
    pub broken: Option<Seq<char>>,
}

pub open spec fn entry_view(e: Result<RawEntry, String>) -> Result<RawEntryView, Seq<char>> {
    match e {
        Ok(r) => Ok(r@),
        Err(text) => Err(text@),
    }
}

pub open spec fn entry_views(es: Seq<Result<RawEntry, String>>) -> Seq<
    Result<RawEntryView, Seq<char>>,
> {
    Seq::new(es.len(), |i: int| entry_view(es[i]))
}

pub open spec fn contents_view(r: Result<Vec<Result<RawEntry, String>>, String>) -> Contents {
    match r {
        Ok(entries) => Contents { entries: entry_views(entries@), broken: None },
        Err(e) => Contents { entries: Seq::empty(), broken: Some(e@) },
    }
}

/// What the bytes of a compressed tar archive hold.
pub uninterp spec fn tar_gz_contents(bytes: Seq<u8>) -> Contents;

/// What the bytes of a zip archive hold.
pub uninterp spec fn zip_contents(bytes: Seq<u8>) -> Contents;

/// `tar::Archive` over `flate2::read::GzDecoder` gives the entries of a compressed tar
/// archive one after the other. What it gives depends on the bytes alone.
#[verifier::external_body]
fn read_tar_gz(bytes: &Vec<u8>) -> (r: Result<Vec<Result<RawEntry, String>>, String>)
    ensures
        contents_view(r) == tar_gz_contents(bytes@),
{
    let mut archive = tar::Archive::new(GzDecoder::new(&bytes[..]));
    let entries = archive.entries().map_err(|e| e.to_string())?;
    Ok(entries.map(|entry| {
        let mut e = entry.map_err(|e| e.to_string())?;
        let (t, mut data) = (e.header().entry_type(), vec![]);
        let name = String::from_utf8_lossy(&e.path_bytes()).into();
        let fault = e.read_to_end(&mut data).err().map(|e| e.to_string());
        Ok(RawEntry { name, folder: t.is_dir(), file: t.is_file(), data, fault })
    }).collect())
}

/// `zip::ZipArchive` gives the entries of a zip archive by their number; one that is no
/// folder is read as a file. What it gives depends on the bytes alone.
#[verifier::external_body]
fn read_zip(bytes: &Vec<u8>) -> (r: Result<Vec<Result<RawEntry, String>>, String>)
    ensures
        contents_view(r) == zip_contents(bytes@),
{
    let mut z = zip::ZipArchive::new(Cursor::new(bytes)).map_err(|e| e.to_string())?;
    Ok((0..z.len()).map(|i| {
        let mut e = z.by_index(i).map_err(|e| e.to_string())?;
        let (name, folder, mut data) = (e.name().into(), e.is_dir(), vec![]);
        let fault = e.read_to_end(&mut data).err().map(|e| e.to_string());
        Ok(RawEntry { name, folder, file: true, data, fault })
    }).collect())
}

/// The text with a slash for each backslash.
pub open spec fn slashed(s: Seq<char>) -> Seq<char> {
    Seq::new(
        s.len(),
        |i: int|
            if s[i] == '\\' {
                '/'
            } else {
                s[i]
            },
    )
}

/// The first slash of a text, from the `i`th character on.
pub open spec fn slash_from(s: Seq<char>, i: int) -> Option<int>
    decreases s.len() - i,
{
    if i < 0 || i >= s.len() {
        None
    } else if s[i] == '/' {
        Some(i)
    } else {
        slash_from(s, i + 1)
    }
}

/// Where an entry goes below the directory of the installation: its name without the
/// topmost folder; nowhere where that leaves nothing.
pub open spec fn entry_path(name: Seq<char>) -> Option<Seq<char>> {
    let n = slashed(name);
    match slash_from(n, 0) {
        Some(i) => if n.skip(i + 1).len() == 0 {
            None
        } else {
            Some(n.skip(i + 1))
        },
        None => None,
    }
}

/// Where an entry goes below the directory of the installation.
pub fn strip_top(name: &str) -> (r: Option<String>)
    ensures
        match entry_path(name@) {
            Some(p) => r.is_some() && r.unwrap()@ == p,
            None => r.is_none(),
        },
{
    let mut cs: Vec<char> = chars_of(name);
    let ghost first = cs@;
    let n: usize = cs.len();
    let mut i: usize = 0;
    while i < n
        invariant
            i <= n,
            n == cs.len(),
            first.len() == n,
            forall|k: int|
                0 <= k < n ==> #[trigger] cs@[k] == (if k < i {
                    slashed(first)[k]
                } else {
                    first[k]
                }),
        decreases n - i,
    {
        if cs[i] == '\\' {
            cs.set(i, '/');
        }
        i = i + 1;
    }
    assert(cs@ =~= slashed(name@));
    let mut j: usize = 0;
    while j < n
        invariant
            j <= n,
            n == cs.len(),
            cs@ == slashed(name@),
            slash_from(cs@, 0) == slash_from(cs@, j as int),
        decreases n - j,
    {
        if cs[j] == '/' {
            if j + 1 == n {
                assert(cs@.skip(j + 1).len() == 0);
                return None;
            }
            let rest: Vec<char> = piece(&cs, j + 1, n);
            assert(rest@ =~= cs@.skip(j + 1));
            return Some(string_of(&rest));
        }
        j = j + 1;
    }
    None
}

/// What unpacking does with an entry.
pub enum StepView {
    /// Makes a folder.
    Folder { path: Seq<char> },
    /// Writes a file.
    File { path: Seq<char>, data: Seq<u8> },
    /// Makes the folder that the entry would be in.
    Parent { path: Seq<char> },
}

/// What unpacking does with an entry.
#[derive(Debug, Clone)]
pub enum Step {
    Folder { path: String },
    File { path: String, data: Vec<u8> },
    Parent { path: String },
}

impl View for Step {
    type V = StepView;

    open spec fn view(&self) -> StepView {
        match self {
            Step::Folder { path } => StepView::Folder { path: path@ },
            Step::File { path, data } => StepView::File { path: path@, data: data@ },
            Step::Parent { path } => StepView::Parent { path: path@ },
        }
    }
}

/// What unpacking does, and what stops it: trouble with the archive, with an entry, or
/// with what a file holds.
pub enum FaultView {
    Archive { text: Seq<char> },
    Entry { text: Seq<char> },
    File { path: Seq<char>, text: Seq<char> },
}

/// What stops unpacking.
#[derive(Debug, Clone)]
pub enum Fault {
    Archive { text: String },
    Entry { text: String },
    File { path: String, text: String },
}

impl View for Fault {
    type V = FaultView;

    open spec fn view(&self) -> FaultView {
        match self {
            Fault::Archive { text } => FaultView::Archive { text: text@ },
            Fault::Entry { text } => FaultView::Entry { text: text@ },
            Fault::File { path, text } => FaultView::File { path: path@, text: text@ },
        }
    }
}

pub open spec fn fault_view(f: Option<Fault>) -> Option<FaultView> {
    match f {
        Some(f) => Some(f@),
        None => None,
    }
}

pub open spec fn step_of(e: RawEntryView, path: Seq<char>) -> StepView {
    match kind_of(e.folder, e.file) {
        EntryKind::Folder => StepView::Folder { path },
        EntryKind::File => StepView::File { path, data: e.data },
        EntryKind::Other => StepView::Parent { path },
    }
}

/// The steps for the entries from the `i`th on, and what stops them. A file that could
/// not be read to its end is still written as far as it was.
pub open spec fn steps_from(c: Contents, i: int) -> (Seq<StepView>, Option<FaultView>)
    decreases c.entries.len() - i,
{
    if i < 0 || i >= c.entries.len() {
        (Seq::empty(), None)
    } else {
        match c.entries[i] {
            Err(text) => (Seq::empty(), Some(FaultView::Entry { text })),
            Ok(e) => match entry_path(e.name) {
                None => steps_from(c, i + 1),
                Some(path) => if kind_of(e.folder, e.file) == EntryKind::File && e.fault.is_some() {
                    (
                        seq![step_of(e, path)],
                        Some(FaultView::File { path, text: e.fault.unwrap() }),
                    )
                } else {
                    let (rest, stop) = steps_from(c, i + 1);
                    (seq![step_of(e, path)] + rest, stop)
                },
            },
        }
    }
}

/// The steps of unpacking an archive, and what stops them.
pub open spec fn unpacking(c: Contents) -> (Seq<StepView>, Option<FaultView>) {
    match c.broken {
        Some(text) => (Seq::empty(), Some(FaultView::Archive { text })),
        None => steps_from(c, 0),
    }
}

/// The steps of unpacking an archive that was read, and what stops them.
pub fn plan_unpacking(read: &Result<Vec<Result<RawEntry, String>>, String>) -> (r: (
    Vec<Step>,
    Option<Fault>,
))
    ensures
        (views(r.0@), fault_view(r.1)) == unpacking(contents_view(*read)),
{
    let ghost c = contents_view(*read);
    let mut steps: Vec<Step> = Vec::new();
    proof {
        assert(views(steps@) =~= Seq::empty());
    }
    let entries: &Vec<Result<RawEntry, String>> = match read {
        Ok(entries) => entries,
        Err(e) => {
            return (steps, Some(Fault::Archive { text: e.clone() }));
        },
    };
    let ghost all = steps_from(c, 0);
    let mut i: usize = 0;
    proof {
        assert(views(steps@) + all.0 =~= all.0);
    }
    while i < entries.len()
        invariant
            i <= entries.len(),
            c == contents_view(*read),
            c.broken.is_none(),
            c.entries == entry_views(entries@),
            all == steps_from(c, 0),
            views(steps@) + steps_from(c, i as int).0 == all.0,
            steps_from(c, i as int).1 == all.1,
        decreases entries.len() - i,
    {
        let ghost held = views(steps@);
        assert(c.entries[i as int] == entry_view(entries@[i as int]));
        match &entries[i] {
            Err(text) => {
                proof {
                    assert(held + Seq::empty() =~= held);
                }
                return (steps, Some(Fault::Entry { text: text.clone() }));
            },
            Ok(e) => {
                if let Some(path) = strip_top(e.name.as_str()) {
                    let ghost next = steps_from(c, i + 1).0;
                    let ghost sv = step_of(e@, path@);
                    let kind: EntryKind = entry_kind(e.folder, e.file);
                    let step: Step = match kind {
                        EntryKind::Folder => Step::Folder { path: path.clone() },
                        EntryKind::File => Step::File {
                            path: path.clone(),
                            data: copy_items(&e.data),
                        },
                        EntryKind::Other => Step::Parent { path: path.clone() },
                    };
                    assert(step@ == sv);
                    steps.push(step);
                    proof {
                        assert(views(steps@) =~= held.push(sv));
                    }
                    if kind == EntryKind::File {
                        if let Some(text) = &e.fault {
                            proof {
                                assert(held + seq![sv] =~= held.push(sv));
                            }
                            return (steps, Some(Fault::File { path, text: text.clone() }));
                        }
                    }
                    proof {
                        assert(held.push(sv) + next =~= held + (seq![sv] + next));
                    }
                }
            },
        }
        i = i + 1;
    }
    proof {
        assert(views(steps@) + Seq::empty() =~= views(steps@));
    }
    (steps, None)
}

/// The steps of unpacking a build, from the bytes of its archive: a zip archive on
/// Windows, a compressed tar archive elsewhere.
pub fn extract_archive(bytes: &Vec<u8>, windows: bool) -> (r: (Vec<Step>, Option<Fault>))
    ensures
        (views(r.0@), fault_view(r.1)) == unpacking(
            if windows {
                zip_contents(bytes@)
            } else {
                tar_gz_contents(bytes@)
            },
        ),
{
    let read: Result<Vec<Result<RawEntry, String>>, String> = if windows {
        read_zip(bytes)
    } else {
        read_tar_gz(bytes)
    };
    plan_unpacking(&read)
}

/// The message on what stopped unpacking; `place` is where the file is written.
pub fn fault_message(f: &Fault, place: &str) -> (r: String)
    ensures
        r@ == (match f@ {
            FaultView::Archive { text } => "bad archive: "@ + text,
            FaultView::Entry { text } => "entry: "@ + text,
            FaultView::File { path, text } => "extract "@ + place@ + ": "@ + text,
        }),
{
    match f {
        Fault::Archive { text } => {
            let mut s: String = "bad archive: ".to_string();
            s.append(text.as_str());
            s
        },
        Fault::Entry { text } => {
            let mut s: String = "entry: ".to_string();
            s.append(text.as_str());
            s
        },
        Fault::File { path: _, text } => {
            let mut s: String = "extract ".to_string();
            s.append(place);
            s.append(": ");
            s.append(text.as_str());
            s
        },
    }
}

/// No step of unpacking has an empty path.
pub proof fn law_steps_have_paths(c: Contents, i: int)
    requires
        0 <= i,
    ensures
        forall|k: int|
            0 <= k < steps_from(c, i).0.len() ==> step_path(#[trigger] steps_from(c, i).0[k]).len()
                > 0,
    decreases c.entries.len() - i,
{
    if i < c.entries.len() {
        law_steps_have_paths(c, i + 1);
        let all = steps_from(c, i).0;
        let rest = steps_from(c, i + 1).0;
        if let Ok(e) = c.entries[i] {
            if let Some(path) = entry_path(e.name) {
                assert(path.len() > 0);
                assert forall|k: int| 0 <= k < all.len() implies step_path(
                    #[trigger] all[k],
                ).len() > 0 by {
                    if k == 0 {
                        assert(all[0] == step_of(e, path));
                    } else {
                        assert(all[k] == rest[k - 1]);
                    }
                }
            }
        }
    }
}

pub open spec fn step_path(s: StepView) -> Seq<char> {
    match s {
        StepView::Folder { path } => path,
        StepView::File { path, .. } => path,
        StepView::Parent { path } => path,
    }
}

/// The entry of the applications menu and of the desktop outside Windows.
pub open spec fn entry_text(program: Seq<char>, icon: Seq<char>) -> Seq<char> {
    "[Desktop Entry]\nType=Application\nName=rsedit\nComment=A minimal, fast, cross-platform video editor\nExec="@
        + program + "\nIcon="@ + icon
        + "\nTerminal=false\nCategories=AudioVideo;Video;AudioVideoEditing;\nKeywords=video;editor;cut;timeline;film;\nStartupNotify=true\n"@
}

/// The entry of the applications menu and of the desktop outside Windows.
pub fn desktop_entry_body(dir: &str, icon: &str) -> (r: String)
    ensures
        r@ == entry_text(under(dir@, program_name(false), false), icon@),
{
    let program: String = join_path(dir, exe_name(false), false);
    let mut s: String =
        "[Desktop Entry]\nType=Application\nName=rsedit\nComment=A minimal, fast, cross-platform video editor\nExec=".to_string();
    s.append(program.as_str());
    s.append("\nIcon=");
    s.append(icon);
    s.append(
        "\nTerminal=false\nCategories=AudioVideo;Video;AudioVideoEditing;\nKeywords=video;editor;cut;timeline;film;\nStartupNotify=true\n",
    );
    s
}

/// The script that makes a shortcut on Windows, with a description or without.
pub open spec fn shortcut_script(
    lnk: Seq<char>,
    target: Seq<char>,
    dir: Seq<char>,
    described: bool,
) -> Seq<char> {
    "$ws = New-Object -ComObject WScript.Shell;\n$lnk = $ws.CreateShortcut("@ + quoted(lnk)
        + ");\n$lnk.TargetPath = "@ + quoted(target) + ";\n$lnk.WorkingDirectory = "@ + quoted(dir)
        + ";\n$lnk.IconLocation = "@ + quoted(target) + (if described {
        ";\n$lnk.Description = 'rsedit video editor';\n$lnk.Save();"@
    } else {
        ";\n$lnk.Save();"@
    })
}

fn shortcut(lnk: &str, target: &str, dir: &str, described: bool) -> (r: String)
    ensures
        r@ == shortcut_script(lnk@, target@, dir@, described),
{
    let mut s: String =
        "$ws = New-Object -ComObject WScript.Shell;\n$lnk = $ws.CreateShortcut(".to_string();
    s.append(ps_quote(lnk).as_str());
    s.append(");\n$lnk.TargetPath = ");
    s.append(ps_quote(target).as_str());
    s.append(";\n$lnk.WorkingDirectory = ");
    s.append(ps_quote(dir).as_str());
    s.append(";\n$lnk.IconLocation = ");
    s.append(ps_quote(target).as_str());
    if described {
        s.append(";\n$lnk.Description = 'rsedit video editor';\n$lnk.Save();");
    } else {
        s.append(";\n$lnk.Save();");
    }
    s
}

/// What puts the program into the start or applications menu: on Windows the script
/// that makes the shortcut `file`, elsewhere the text of the entry.
pub fn write_start_menu(dir: &str, file: &str, windows: bool) -> (r: String)
    ensures
        r@ == (if windows {
            shortcut_script(file@, under(dir@, program_name(true), true), dir@, true)
        } else {
            entry_text(
                under(dir@, program_name(false), false),
                under(dir@, "icon.png"@, false),
            )
        }),
{
    if windows {
        let target: String = join_path(dir, exe_name(true), true);
        shortcut(file, target.as_str(), dir, true)
    } else {
        let icon: String = join_path(dir, "icon.png", false);
        desktop_entry_body(dir, icon.as_str())
    }
}

/// What puts the program on the desktop.
pub fn write_desktop(dir: &str, file: &str, windows: bool) -> (r: String)
    ensures
        r@ == (if windows {
            shortcut_script(file@, under(dir@, program_name(true), true), dir@, false)
        } else {
            entry_text(
                under(dir@, program_name(false), false),
                under(dir@, "icon.png"@, false),
            )
        }),
{
    if windows {
        let target: String = join_path(dir, exe_name(true), true);
        shortcut(file, target.as_str(), dir, false)
    } else {
        let icon: String = join_path(dir, "icon.png", false);
        desktop_entry_body(dir, icon.as_str())
    }
}

/// The command that uninstalls, with a window or without.
pub fn uninstall_command(exe: &str, silent: bool) -> (r: String)
    ensures
        r@ == exe@ + (if silent {
            " --uninstall --silent"@
        } else {
            " --uninstall"@
        }),
{
    let mut s: String = exe.to_string();
    if silent {
        s.append(" --uninstall --silent");
    } else {
        s.append(" --uninstall");
    }
    s
}

/// How far an installation has got.
#[derive(Debug, Clone)]
pub enum Phase {
    Idle,
    Querying,
    /// Bytes so far, bytes in all where known, and mebibytes per second.
    Downloading { got: u64, total: u64, mbps: Float64 },
    Extracting,
    Configuring,
    Done { version: String },
    Removing,
    Removed,
    Error { msg: String },
}

impl Default for Phase {
    fn default() -> (p: Phase)
        ensures
            p == Phase::Idle,
    {
        Phase::Idle
    }
}

/// What the user chose.
#[derive(Debug, Clone)]
pub struct Options {
    pub dir: String,
    pub start_menu: bool,
    pub desktop: bool,
}

/// How many lines of the log are kept.
pub const LOG_LIMIT: usize = 400;

/// The log with one more line; the oldest are given up where there are too many.
pub open spec fn logged(log: Seq<Seq<char>>, line: Seq<char>) -> Seq<Seq<char>> {
    let all = log.push(line);
    if all.len() > LOG_LIMIT {
        all.skip(all.len() - LOG_LIMIT)
    } else {
        all
    }
}

/// The log ends with the line last written and never holds more than its limit.
pub proof fn law_log_keeps_the_latest(log: Seq<Seq<char>>, line: Seq<char>)
    ensures
        logged(log, line).last() == line,
        1 <= logged(log, line).len() <= LOG_LIMIT,
        log.len() < LOG_LIMIT ==> logged(log, line) == log.push(line),
{
}

/// An installation under way.
#[derive(Debug, Clone)]
pub struct Installation {
    pub phase: Phase,
    pub log: Vec<String>,
    pub options: Options,
    pub windows: bool,
    /// The release that is installed.
    pub version: String,
}

/// A build to download: from where, and the name of the file for it.
#[derive(Debug, Clone)]
pub struct Download {
    pub url: String,
    pub file: String,
}

/// The error on a failed step.
pub open spec fn error_line(msg: Seq<char>) -> Seq<char> {
    "Error: "@ + msg
}

/// The phase is an error with a message.
pub open spec fn is_error(p: Phase, msg: Seq<char>) -> bool {
    p matches Phase::Error { msg: m } && m@ == msg
}

/// Something is going on.
pub open spec fn busy(p: Phase) -> bool {
    p matches Phase::Querying || p matches Phase::Downloading { .. } || p matches Phase::Extracting
        || p matches Phase::Configuring || p matches Phase::Removing
}

/// Whether something is going on.
pub fn is_busy(p: &Phase) -> (r: bool)
    ensures
        r == busy(*p),
{
    match p {
        Phase::Querying => true,
        Phase::Downloading { .. } => true,
        Phase::Extracting => true,
        Phase::Configuring => true,
        Phase::Removing => true,
        _ => false,
    }
}

/// The line on the build that was found.
pub open spec fn found_line(a: ReleaseAsset) -> Seq<char> {
    "Found "@ + a.name@ + " ("@ + decimal((a.size / 1_048_576) as nat) + " MiB)"@
}

fn two(a: &str, b: &str) -> (r: String)
    ensures
        r@ == a@ + b@,
{
    let mut s: String = a.to_string();
    s.append(b);
    s
}

impl Installation {
    pub fn new(options: Options, windows: bool) -> (i: Installation)
        ensures
            i.phase == Phase::Idle,
            i.log@.len() == 0,
            i.options == options,
            i.windows == windows,
            i.version@ == ""@,
    {
        Installation {
            phase: Phase::Idle,
            log: Vec::new(),
            options,
            windows,
            version: "".to_string(),
        }
    }

    /// Writes a line to the log.
    pub fn log_line(&mut self, line: &str)
        ensures
            *final(self) == (Installation { log: final(self).log, ..*old(self) }),
            views(final(self).log@) == logged(views(old(self).log@), line@),
    {
        let ghost before = views(self.log@);
        self.log.push(line.to_string());
        proof {
            assert(views(self.log@) =~= before.push(line@));
        }
        if self.log.len() > LOG_LIMIT {
            let excess: usize = self.log.len() - LOG_LIMIT;
            let rest: Vec<String> = self.log.split_off(excess);
            self.log = rest;
            proof {
                assert(views(self.log@) =~= before.push(line@).skip(excess as int));
            }
        }
    }

    /// The installation has failed with a message.
    pub open spec fn failed(self, to: Installation, msg: Seq<char>) -> bool {
        &&& to == (Installation { phase: to.phase, log: to.log, ..self })
        &&& is_error(to.phase, msg)
        &&& views(to.log@) == logged(views(self.log@), error_line(msg))
    }

    fn fail(&mut self, msg: String)
        ensures
            old(self).failed(*final(self), msg@),
    {
        let line: String = two("Error: ", msg.as_str());
        self.log_line(line.as_str());
        self.phase = Phase::Error { msg };
    }

    /// The installation was called off.
    pub open spec fn called_off(self, to: Installation) -> bool {
        &&& to == (Installation { phase: Phase::Idle, log: to.log, ..self })
        &&& views(to.log@) == logged(views(self.log@), "Install cancelled."@)
    }

    fn call_off(&mut self)
        ensures
            old(self).called_off(*final(self)),
    {
        self.log_line("Install cancelled.");
        self.phase = Phase::Idle;
    }

    /// The latest release is asked for.
    pub open spec fn begun(self, to: Installation) -> bool {
        &&& to == (Installation { phase: Phase::Querying, log: to.log, ..self })
        &&& views(to.log@) == logged(
            views(self.log@),
            "Fetching latest release from GitHub…"@,
        )
    }

    /// Begins an installation: the latest release is to be asked for.
    pub fn begin(&mut self)
        ensures
            old(self).begun(*final(self)),
    {
        self.log_line("Fetching latest release from GitHub…");
        self.phase = Phase::Querying;
    }

    /// The latest release is there or not: the build to download, or nothing where the
    /// release could not be had or holds no build for the platform.
    pub open spec fn release_taken(
        self,
        found: Result<Release, String>,
        to: Installation,
        r: Option<Download>,
    ) -> bool {
        match found {
            Err(e) => r.is_none() && self.failed(to, e@),
            Ok(release) => {
                let l1 = logged(views(self.log@), "Latest release: "@ + release.tag_name@);
                match build_from(release.assets@, self.windows, 0) {
                    None => {
                        let msg =
                            "no portable build found for this platform in the latest release"@;
                        &&& r.is_none()
                        &&& to == (Installation { phase: to.phase, log: to.log, ..self })
                        &&& is_error(to.phase, msg)
                        &&& views(to.log@) == logged(l1, error_line(msg))
                    },
                    Some(i) => {
                        &&& r.is_some()
                        &&& r.unwrap().url@ == release.assets@[i].browser_download_url@
                        &&& r.unwrap().file@ == "rsedit-"@ + release.tag_name@ + ".inst"@
                        &&& to == (Installation { log: to.log, version: to.version, ..self })
                        &&& to.version@ == release.tag_name@
                        &&& views(to.log@) == logged(
                            logged(l1, found_line(release.assets@[i])),
                            "Downloading portable build…"@,
                        )
                    },
                }
            },
        }
    }

    /// Goes on with the latest release: the build to download, or nothing where the
    /// release could not be had or holds no build for the platform.
    pub fn release_found(&mut self, found: Result<Release, String>) -> (r: Option<Download>)
        ensures
            old(self).release_taken(found, *final(self), r),
    {
        let release: Release = match found {
            Ok(r) => r,
            Err(e) => {
                self.fail(e);
                return None;
            },
        };
        let line: String = two("Latest release: ", release.tag_name.as_str());
        self.log_line(line.as_str());
        match find_build(&release.assets, self.windows) {
            None => {
                self.fail(
                    "no portable build found for this platform in the latest release".to_string(),
                );
                None
            },
            Some(i) => {
                let a: &ReleaseAsset = &release.assets[i];
                let mut found: String = two("Found ", a.name.as_str());
                found.append(" (");
                found.append(decimal_string((a.size / 1_048_576) as u128).as_str());
                found.append(" MiB)");
                self.log_line(found.as_str());
                self.log_line("Downloading portable build…");
                let mut file: String = two("rsedit-", release.tag_name.as_str());
                file.append(".inst");
                let url: String = a.browser_download_url.clone();
                self.version = release.tag_name.clone();
                Some(Download { url, file })
            },
        }
    }

    /// So much of the download is there.
    pub open spec fn downloading(self, got: u64, total: u64, mbps: Float64) -> Installation {
        Installation { phase: Phase::Downloading { got, total, mbps }, ..self }
    }

    /// Takes note of how far a download has got.
    pub fn progress(&mut self, got: u64, total: u64, mbps: Float64)
        ensures
            *final(self) == old(self).downloading(got, total, mbps),
    {
        self.phase = Phase::Downloading { got, total, mbps };
    }

    /// The download is over; `unpack` tells whether the build is to be unpacked.
    pub open spec fn download_taken(
        self,
        done: Result<(), String>,
        cancelled: bool,
        to: Installation,
        unpack: bool,
    ) -> bool {
        match done {
            Err(e) => {
                &&& !unpack
                &&& if e@ == "cancelled"@ {
                    self.called_off(to)
                } else {
                    self.failed(to, e@)
                }
            },
            Ok(()) => if cancelled {
                !unpack && self.called_off(to)
            } else {
                &&& unpack
                &&& to == (Installation { phase: Phase::Extracting, log: to.log, ..self })
                &&& views(to.log@) == logged(
                    views(self.log@),
                    "Extracting to "@ + self.options.dir@ + "…"@,
                )
            },
        }
    }

    /// Goes on after a download; `true` where the build is to be unpacked.
    pub fn downloaded(&mut self, done: Result<(), String>, cancelled: bool) -> (unpack: bool)
        ensures
            old(self).download_taken(done, cancelled, *final(self), unpack),
    {
        match done {
            Err(e) => {
                if crate::strings::same_text(e.as_str(), "cancelled") {
                    self.call_off();
                } else {
                    self.fail(e);
                }
                false
            },
            Ok(()) => {
                if cancelled {
                    self.call_off();
                    false
                } else {
                    self.phase = Phase::Extracting;
                    let mut line: String = two("Extracting to ", self.options.dir.as_str());
                    line.append("…");
                    self.log_line(line.as_str());
                    true
                }
            },
        }
    }

    /// The path of the installed program.
    pub fn program(&self) -> (r: String)
        ensures
            r@ == under(self.options.dir@, program_name(self.windows), self.windows),
    {
        join_path(self.options.dir.as_str(), exe_name(self.windows), self.windows)
    }

    /// Unpacking is over; `go_on` tells whether shortcuts are to be made. The program has
    /// to be there.
    pub open spec fn unpacking_taken(
        self,
        done: Result<(), String>,
        present: bool,
        to: Installation,
        go_on: bool,
    ) -> bool {
        match done {
            Err(e) => !go_on && self.failed(to, e@),
            Ok(()) => if present {
                go_on && to == (Installation { phase: Phase::Configuring, ..self })
            } else {
                !go_on && self.failed(
                    to,
                    "installed program missing: "@ + under(
                        self.options.dir@,
                        program_name(self.windows),
                        self.windows,
                    ),
                )
            },
        }
    }

    /// Goes on after unpacking; `true` where shortcuts are to be made. The program has to
    /// be there.
    pub fn extracted(&mut self, done: Result<(), String>, present: bool) -> (go_on: bool)
        ensures
            old(self).unpacking_taken(done, present, *final(self), go_on),
    {
        match done {
            Err(e) => {
                self.fail(e);
                false
            },
            Ok(()) => {
                if present {
                    self.phase = Phase::Configuring;
                    true
                } else {
                    let program: String = self.program();
                    let msg: String = two("installed program missing: ", program.as_str());
                    self.fail(msg);
                    false
                }
            },
        }
    }

    /// A shortcut or registration was made or not; a failure is only a warning.
    pub open spec fn noted(
        self,
        what: Configured,
        done: Result<(), String>,
        to: Installation,
    ) -> bool {
        &&& to == (Installation { log: to.log, ..self })
        &&& views(to.log@) == logged(
            views(self.log@),
            match done {
                Ok(()) => success_line(what),
                Err(e) => warning_start(what) + e@,
            },
        )
    }

    /// Takes note of a shortcut or registration that was made or not; a failure is only
    /// a warning.
    pub fn configured(&mut self, what: Configured, done: Result<(), String>)
        ensures
            old(self).noted(what, done, *final(self)),
    {
        match done {
            Ok(()) => {
                let line: &str = match what {
                    Configured::StartMenu => "Start menu shortcut created.",
                    Configured::Desktop => "Desktop shortcut created.",
                    Configured::Registry => "Uninstall entry registered.",
                };
                self.log_line(line);
            },
            Err(e) => {
                let start: &str = match what {
                    Configured::StartMenu => "Warning: start menu shortcut: ",
                    Configured::Desktop => "Warning: desktop shortcut: ",
                    Configured::Registry => "Warning: uninstall registry: ",
                };
                let line: String = two(start, e.as_str());
                self.log_line(line.as_str());
            },
        }
    }

    /// The installation is done.
    pub open spec fn finished(self, to: Installation) -> bool {
        &&& to == (Installation { phase: to.phase, log: to.log, ..self })
        &&& to.phase matches Phase::Done { version } && version@ == self.version@
        &&& views(to.log@) == logged(views(self.log@), "Installed."@)
    }

    /// Ends an installation.
    pub fn finish(&mut self)
        ensures
            old(self).finished(*final(self)),
    {
        self.log_line("Installed.");
        self.phase = Phase::Done { version: self.version.clone() };
    }

    /// Begins to uninstall.
    pub fn begin_removal(&mut self)
        ensures
            *final(self) == (Installation {
                phase: Phase::Removing,
                log: final(self).log,
                ..*old(self)
            }),
            views(final(self).log@) == logged(
                views(old(self).log@),
                "Removing "@ + old(self).options.dir@ + "…"@,
            ),
    {
        self.phase = Phase::Removing;
        let mut line: String = two("Removing ", self.options.dir.as_str());
        line.append("…");
        self.log_line(line.as_str());
    }

    /// Ends the removal.
    pub fn removed(&mut self, done: Result<(), String>)
        ensures
            match done {
                Ok(()) => {
                    &&& *final(self) == (Installation {
                        phase: Phase::Removed,
                        log: final(self).log,
                        ..*old(self)
                    })
                    &&& views(final(self).log@) == logged(views(old(self).log@), "rsedit removed."@)
                },
                Err(e) => old(self).failed(*final(self), e@),
            },
    {
        match done {
            Ok(()) => {
                self.log_line("rsedit removed.");
                self.phase = Phase::Removed;
            },
            Err(e) => {
                self.fail(e);
            },
        }
    }

    /// Takes a directory that the user typed; an empty one is passed over.
    pub fn type_dir(&mut self, typed: &str)
        ensures
            *final(self) == (Installation { options: final(self).options, ..*old(self) }),
            final(self).options == (Options { dir: final(self).options.dir, ..old(self).options }),
            final(self).options.dir@ == (if trimmed(typed@).len() > 0 {
                trimmed(typed@)
            } else {
                old(self).options.dir@
            }),
    {
        let t: Vec<char> = trim(&chars_of(typed));
        if t.len() > 0 {
            self.options.dir = string_of(&t);
        }
    }
}

/// Where an installation stands: at the start, or with so much of it behind it.
#[derive(Debug, Clone, Copy, PartialEq, Eq, Structural)]
pub enum Stage {
    Start,
    Query,
    Download,
    Unpack,
    Configure,
    /// Nothing follows.
    End,
}

/// A step of a run, as the functions of an installation take it: from one stage to the
/// next, whatever came back from outside.
pub open spec fn run_step(a: Installation, at: Stage, b: Installation, to: Stage) -> bool {
    match at {
        Stage::Start => to == Stage::Query && a.begun(b),
        Stage::Query => exists|found: Result<Release, String>, r: Option<Download>| #[trigger]
            a.release_taken(found, b, r) && to == (if r.is_some() {
                Stage::Download
            } else {
                Stage::End
            }),
        Stage::Download => {
            ||| exists|got: u64, total: u64, mbps: Float64|
                b == (#[trigger] a.downloading(got, total, mbps)) && to == Stage::Download
            ||| exists|done: Result<(), String>, cancelled: bool, unpack: bool| #[trigger]
                a.download_taken(done, cancelled, b, unpack) && to == (if unpack {
                    Stage::Unpack
                } else {
                    Stage::End
                })
        },
        Stage::Unpack => exists|done: Result<(), String>, present: bool, go_on: bool| #[trigger]
            a.unpacking_taken(done, present, b, go_on) && to == (if go_on {
                Stage::Configure
            } else {
                Stage::End
            }),
        Stage::Configure => {
            ||| exists|what: Configured, done: Result<(), String>| #[trigger]
                a.noted(what, done, b) && to == Stage::Configure
            ||| a.finished(b) && to == Stage::End
        },
        Stage::End => false,
    }
}

/// What a run of an installation is: states and stages, each a step from the one before.
pub open spec fn is_run(states: Seq<Installation>, stages: Seq<Stage>) -> bool {
    &&& states.len() == stages.len()
    &&& states.len() > 0
    &&& stages[0] == Stage::Start
    &&& forall|i: int|
        0 <= i < states.len() - 1 ==> run_step(
            #[trigger] states[i],
            stages[i],
            states[i + 1],
            stages[i + 1],
        )
}

/// An installation that has come to its end stands at an error, is idle after it was
/// called off, or is done; it is never left in a busy phase. Until then it is busy from
/// the first step on.
pub proof fn law_runs_end_at_rest(states: Seq<Installation>, stages: Seq<Stage>)
    requires
        is_run(states, stages),
    ensures
        stages.last() == Stage::End ==> {
            let p = states.last().phase;
            &&& !busy(p)
            &&& p is Error || p is Idle || p is Done
        },
        stages.last() != Stage::End && stages.last() != Stage::Start ==> busy(states.last().phase),
    decreases states.len(),
{
    let n = states.len();
    if n > 1 {
        let (before, at) = (states.drop_last(), stages.drop_last());
        assert forall|i: int| 0 <= i < before.len() - 1 implies run_step(
            #[trigger] before[i],
            at[i],
            before[i + 1],
            at[i + 1],
        ) by {
            assert(run_step(states[i], stages[i], states[i + 1], stages[i + 1]));
        }
        law_runs_end_at_rest(before, at);
        let (a, b) = (states[n - 2], states[n - 1]);
        assert(run_step(a, stages[n - 2], b, stages[n - 1]));
    }
}

/// What is made once the program is there.
#[derive(Debug, Clone, Copy, PartialEq, Eq, Structural)]
pub enum Configured {
    StartMenu,
    Desktop,
    Registry,
}

pub open spec fn success_line(what: Configured) -> Seq<char> {
    match what {
        Configured::StartMenu => "Start menu shortcut created."@,
        Configured::Desktop => "Desktop shortcut created."@,
        Configured::Registry => "Uninstall entry registered."@,
    }
}

pub open spec fn warning_start(what: Configured) -> Seq<char> {
    match what {
        Configured::StartMenu => "Warning: start menu shortcut: "@,
        Configured::Desktop => "Warning: desktop shortcut: "@,
        Configured::Registry => "Warning: uninstall registry: "@,
    }
}

/// The speed of a download in mebibytes per second: bytes in some seconds; zero where
/// no time has passed.
pub open spec fn speed(bytes: int, seconds: Number) -> Number {
    if positive(seconds) {
        quotient(
            double(),
            quotient(double(), of_integer(double(), bytes), of_integer(double(), 1_048_576)),
            seconds,
        )
    } else {
        of_integer(double(), 0)
    }
}

/// The speed of a download.
pub fn download_speed(got: u64, last: u64, seconds: Float64) -> (r: Float64)
    requires
        last <= got,
    ensures
        r@ == speed(got - last, seconds@),
{
    if seconds.is_positive() {
        Float64::from_u64(got - last).over(Float64::from_i64(1_048_576)).over(seconds)
    } else {
        Float64::from_i64(0)
    }
}

/// How much of a download is done, up to one; nothing where its size is not known.
pub open spec fn fraction(got: int, total: int) -> Number {
    if total > 0 {
        smaller(quotient(single(), num(got), num(total)), num(1))
    } else {
        num(0)
    }
}

/// How much of a download is done.
pub fn download_fraction(got: u64, total: u64) -> (r: Float32)
    ensures
        r@ == fraction(got as int, total as int),
{
    if total > 0 {
        Float32::from_u64(got).over(Float32::from_u64(total)).minimum(Float32::from_i64(1))
    } else {
        Float32::from_i64(0)
    }
}

/// How much of a download is done in percent, up to a hundred.
pub open spec fn percent(got: int, total: int) -> Number {
    if total > 0 {
        smaller(
            product(single(), quotient(single(), num(got), num(total)), num(100)),
            num(100),
        )
    } else {
        num(0)
    }
}

/// How much of a download is done in percent.
pub fn download_percent(got: u64, total: u64) -> (r: Float32)
    ensures
        r@ == percent(got as int, total as int),
{
    if total > 0 {
        Float32::from_u64(got).over(Float32::from_u64(total)).times(Float32::from_i64(100)).minimum(
            Float32::from_i64(100),
        )
    } else {
        Float32::from_i64(0)
    }
}

/// The title and the line below it that say how far an installation has got; those of
/// a download hold numbers, which are given.
pub open spec fn status_of(
    p: Phase,
    dir: Seq<char>,
    percent: Seq<char>,
    amounts: Seq<char>,
) -> (Seq<char>, Seq<char>) {
    match p {
        Phase::Idle => (
            "Ready to install"@,
            "rsedit will be downloaded from the latest official release and installed for this user only."@,
        ),
        Phase::Querying => ("Checking for updates…"@, "Contacting GitHub…"@),
        Phase::Downloading { .. } => ("Downloading… "@ + percent + "%"@, amounts),
        Phase::Extracting => ("Installing…"@, "Extracting files…"@),
        Phase::Configuring => (
            "Almost done…"@,
            "Creating start menu and desktop shortcuts…"@,
        ),
        Phase::Done { version } => (
            "Installed "@ + version@,
            "rsedit is ready to use. Launch it from "@ + dir + "."@,
        ),
        Phase::Removing => ("Uninstalling…"@, "Removing files…"@),
        Phase::Removed => ("Uninstalled"@, "rsedit has been removed."@),
        Phase::Error { msg } => ("Something went wrong"@, msg@),
    }
}

/// The title and the line below it that say how far an installation has got.
pub fn status_text(p: &Phase, dir: &str, percent: &str, amounts: &str) -> (r: (String, String))
    ensures
        (r.0@, r.1@) == status_of(*p, dir@, percent@, amounts@),
{
    match p {
        Phase::Idle => (
            "Ready to install".to_string(),
            "rsedit will be downloaded from the latest official release and installed for this user only.".to_string(),
        ),
        Phase::Querying => ("Checking for updates…".to_string(), "Contacting GitHub…".to_string()),
        Phase::Downloading { .. } => {
            let mut title: String = two("Downloading… ", percent);
            title.append("%");
            (title, amounts.to_string())
        },
        Phase::Extracting => ("Installing…".to_string(), "Extracting files…".to_string()),
        Phase::Configuring => (
            "Almost done…".to_string(),
            "Creating start menu and desktop shortcuts…".to_string(),
        ),
        Phase::Done { version } => {
            let mut sub: String = two("rsedit is ready to use. Launch it from ", dir);
            sub.append(".");
            (two("Installed ", version.as_str()), sub)
        },
        Phase::Removing => ("Uninstalling…".to_string(), "Removing files…".to_string()),
        Phase::Removed => ("Uninstalled".to_string(), "rsedit has been removed.".to_string()),
        Phase::Error { msg } => ("Something went wrong".to_string(), msg.clone()),
    }
}

/// How a line of the log is shown.
#[derive(Debug, Clone, Copy, PartialEq, Eq, Structural)]
pub enum Tone {
    Warning,
    Error,
    Plain,
}

/// How a line of the log is shown, by the words in it.
pub fn line_tone(line: &str) -> (r: Tone)
    ensures
        r == (if contains(line@, "Warning"@) {
            Tone::Warning
        } else if contains(line@, "Error"@) {
            Tone::Error
        } else {
            Tone::Plain
        }),
{
    let l: Vec<char> = chars_of(line);
    if has(&l, &chars_of("Warning")) {
        Tone::Warning
    } else if has(&l, &chars_of("Error")) {
        Tone::Error
    } else {
        Tone::Plain
    }
}

} // verus!
