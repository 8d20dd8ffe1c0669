//! The candidate filter: which directory entries are hashed, which are
//! descended into, and which are passed over.

use vstd::prelude::*;
use vstd::string::*;

verus! {

/// What a directory entry turned out to be once its metadata was read.
#[derive(Clone, Copy, Debug, PartialEq, Eq, Structural)]
pub enum EntryKind {
    File,
    Directory,
    Other,
}

/// One entry of a directory listing.
#[derive(Clone, Debug)]
pub struct Entry {
    /// The last component of the entry's path.
    pub name: String,
    pub kind: EntryKind,
    /// Length in bytes.
    pub size: u64,
    /// Whether the entry itself is a symbolic link.
    pub is_symlink: bool,
}

/// The mathematical value of an [`Entry`].
pub struct EntryView {
    pub name: Seq<char>,
    pub kind: EntryKind,
    pub size: u64,
    pub is_symlink: bool,
}

impl View for Entry {
    type V = EntryView;

    open spec fn view(&self) -> EntryView {
        EntryView {
            name: self.name@,
            kind: self.kind,
            size: self.size,
            is_symlink: self.is_symlink,
        }
    }
}

/// The options that steer the filter.
#[derive(Clone, Debug)]
pub struct Config {
    /// Descend into subdirectories.
    pub recursive: bool,
    /// Pass over entries whose name begins with a dot.
    pub exclude_dots: bool,
    /// A regular expression that a file's name has to match.
    pub filter: Option<String>,
    /// Treat symbolic links as what they point to instead of passing them over.
    pub follow_symlinks: bool,
    /// Smallest admitted size in bytes.
    pub min: Option<u64>,
    /// Largest admitted size in bytes.
    pub max: Option<u64>,
}

/// The mathematical value of a [`Config`].
pub struct ConfigView {
    pub recursive: bool,
    pub exclude_dots: bool,
    pub filter: Option<Seq<char>>,
    pub follow_symlinks: bool,
    pub min: Option<u64>,
    pub max: Option<u64>,
}

impl View for Config {
    type V = ConfigView;

    open spec fn view(&self) -> ConfigView {
        ConfigView {
            recursive: self.recursive,
            exclude_dots: self.exclude_dots,
            filter: match self.filter {
                Some(p) => Some(p@),
                None => None,
            },
            follow_symlinks: self.follow_symlinks,
            min: self.min,
            max: self.max,
        }
    }
}

/// What becomes of an entry.
#[derive(Clone, Copy, Debug, PartialEq, Eq, Structural)]
pub enum Verdict {
    /// The entry is passed over.
    Skip,
    /// The entry is a file that is hashed.
    Keep,
    /// The entry is a directory whose children are listed in turn.
    Descend,
}

/// Why an entry could not be judged.
#[derive(Clone, Copy, Debug, PartialEq, Eq, Structural)]
pub enum FilterError {
    /// The name filter is not a regular expression that can be compiled.
    InvalidPattern,
}

/// The error of the `regex` crate, carried through as it is.
#[verifier::external_type_specification]
#[verifier::external_body]
pub struct ExRegexError(regex::Error);

/// Whether the regular expression `pattern`, as the `regex` crate reads it,
/// finds a match somewhere in `text`.
pub uninterp spec fn pattern_matches(pattern: Seq<char>, text: Seq<char>) -> bool;

/// Compiles `pattern` with `regex::Regex::new` and searches `text` with
/// `Regex::is_match`. Nothing is claimed of which patterns compile. Where the
/// pattern compiles, the answer is the one that `pattern_matches` stands for:
/// `is_match` is true exactly if the expression matches anywhere in the text.
#[verifier::external_body]
fn search(pattern: &str, text: &str) -> (r: Result<bool, regex::Error>)
    ensures
        r is Ok ==> r->Ok_0 == pattern_matches(pattern@, text@),
{
    let compiled = regex::Regex::new(pattern)?;
    Ok(compiled.is_match(text))
}

/// Whether the name begins with a dot.
pub open spec fn starts_with_dot(name: Seq<char>) -> bool {
    name.len() > 0 && name[0] == '.'
}

/// Whether the entry is out before any rule on files or directories is
/// looked at: a symbolic link that is not followed, or a dot entry where
/// those are excluded.
pub open spec fn barred(config: ConfigView, entry: EntryView) -> bool {
    ||| entry.is_symlink && !config.follow_symlinks
    ||| config.exclude_dots && starts_with_dot(entry.name)
}

/// Whether the name filter has to be asked about the entry.
pub open spec fn consults_pattern(config: ConfigView, entry: EntryView) -> bool {
    &&& !barred(config, entry)
    &&& entry.kind == EntryKind::File
    &&& config.filter is Some
}

/// Whether the size is no less than the minimum and no more than the
/// maximum, as far as either is set.
pub open spec fn within_bounds(config: ConfigView, size: u64) -> bool {
    &&& config.min is Some ==> config.min->Some_0 <= size
    &&& config.max is Some ==> size <= config.max->Some_0
}

/// The verdict on an entry, given what the name filter said of its name.
/// `matched` is read only where `consults_pattern` holds.
pub open spec fn verdict(config: ConfigView, entry: EntryView, matched: bool) -> Verdict {
    if barred(config, entry) {
        Verdict::Skip
    } else if entry.kind == EntryKind::File {
        if config.filter is Some && !matched {
            Verdict::Skip
        } else if !within_bounds(config, entry.size) {
            Verdict::Skip
        } else {
            Verdict::Keep
        }
    } else if entry.kind == EntryKind::Directory && config.recursive {
        Verdict::Descend
    } else {
        Verdict::Skip
    }
}

/// The verdict on an entry under the configured name filter.
pub open spec fn verdict_of(config: ConfigView, entry: EntryView) -> Verdict {
    verdict(
        config,
        entry,
        config.filter is Some && pattern_matches(config.filter->Some_0, entry.name),
    )
}

/// Decides whether the name begins with a dot.
pub fn is_dot_name(name: &str) -> (r: bool)
    ensures
        r == starts_with_dot(name@),
{
    if name.is_empty() {
        false
    } else {
        name.get_char(0) == '.'
    }
}

/// Whether an entry is passed over whatever its metadata says.
pub fn is_barred(config: &Config, name: &str, is_symlink: bool) -> (r: bool)
    ensures
        r == (is_symlink && !config.follow_symlinks || config.exclude_dots && starts_with_dot(
            name@,
        )),
{
    if is_symlink && !config.follow_symlinks {
        return true;
    }
    config.exclude_dots && is_dot_name(name)
}

/// Judges an entry from the answer of the name filter: `Some` with whether
/// the name matched, `None` where the filter could not be compiled. The
/// answer is read only where `consults_pattern` holds.
pub fn decide(config: &Config, entry: &Entry, answer: Option<bool>) -> (r: Result<
    Verdict,
    FilterError,
>)
    ensures
        consults_pattern(config@, entry@) && answer is None ==> r == Err::<Verdict, FilterError>(
            FilterError::InvalidPattern,
        ),
        !(consults_pattern(config@, entry@) && answer is None) ==> r == Ok::<Verdict, FilterError>(
            verdict(config@, entry@, answer is Some && answer->Some_0),
        ),
{
    if is_barred(config, entry.name.as_str(), entry.is_symlink) {
        return Ok(Verdict::Skip);
    }
    match entry.kind {
        EntryKind::File => {
            if config.filter.is_some() {
                match answer {
                    None => {
                        return Err(FilterError::InvalidPattern);
                    },
                    Some(matched) => {
                        if !matched {
                            return Ok(Verdict::Skip);
                        }
                    },
                }
            }
            if let Some(min) = config.min {
                if min > entry.size {
                    return Ok(Verdict::Skip);
                }
            }
            if let Some(max) = config.max {
                if max < entry.size {
                    return Ok(Verdict::Skip);
                }
            }
            Ok(Verdict::Keep)
        },
        EntryKind::Directory => {
            if config.recursive {
                Ok(Verdict::Descend)
            } else {
                Ok(Verdict::Skip)
            }
        },
        EntryKind::Other => Ok(Verdict::Skip),
    }
}

/// Asks the name filter about a file's name, where the verdict depends on it:
/// no answer where it does not, an error where the filter does not compile.
fn consult(config: &Config, entry: &Entry) -> (r: Result<Option<bool>, FilterError>)
    ensures
        !consults_pattern(config@, entry@) ==> r == Ok::<Option<bool>, FilterError>(None),
        consults_pattern(config@, entry@) ==> match r {
            Ok(answer) => answer == Some(
                pattern_matches(config@.filter->Some_0, entry@.name),
            ),
            Err(error) => error == FilterError::InvalidPattern,
        },
{
    if is_barred(config, entry.name.as_str(), entry.is_symlink) {
        return Ok(None);
    }
    match entry.kind {
        EntryKind::File => match &config.filter {
            Some(pattern) => match search(pattern.as_str(), entry.name.as_str()) {
                Ok(matched) => Ok(Some(matched)),
                Err(_) => Err(FilterError::InvalidPattern),
            },
            None => Ok(None),
        },
        _ => Ok(None),
    }
}

/// Judges an entry: the symbolic-link rule first, then dot exclusion, then
/// for files the name filter and the two size bounds, in this order.
///
/// The call fails only where the name filter had to be asked and did not
/// compile. Otherwise the verdict is `verdict_of`.
pub fn classify(config: &Config, entry: &Entry) -> (r: Result<Verdict, FilterError>)
    ensures
        !consults_pattern(config@, entry@) ==> r == Ok::<Verdict, FilterError>(
            verdict_of(config@, entry@),
        ),
        r is Ok ==> r->Ok_0 == verdict_of(config@, entry@),
        r is Err ==> r->Err_0 == FilterError::InvalidPattern,
{
    match consult(config, entry) {
        Ok(answer) => decide(config, entry, answer),
        Err(error) => Err(error),
    }
}

/// With dot exclusion on, no entry whose name begins with a dot is kept or
/// descended into.
pub proof fn lemma_dot_entries_are_skipped(config: ConfigView, entry: EntryView, matched: bool)
    requires
        config.exclude_dots,
        starts_with_dot(entry.name),
    ensures
        verdict(config, entry, matched) == Verdict::Skip,
{
}

/// A kept entry is a file whose size lies within the configured bounds.
pub proof fn lemma_kept_within_bounds(config: ConfigView, entry: EntryView, matched: bool)
    requires
        verdict(config, entry, matched) == Verdict::Keep,
    ensures
        entry.kind == EntryKind::File,
        config.min is Some ==> config.min->Some_0 <= entry.size,
        config.max is Some ==> entry.size <= config.max->Some_0,
{
}

/// Where a name filter is set, a kept entry's name matches it.
pub proof fn lemma_kept_matches_filter(config: ConfigView, entry: EntryView)
    requires
        config.filter is Some,
        verdict_of(config, entry) == Verdict::Keep,
    ensures
        pattern_matches(config.filter->Some_0, entry.name),
{
}

/// The name filter has no say on directories: whether one is descended into
/// does not depend on what the filter answers.
pub proof fn lemma_filter_ignores_directories(config: ConfigView, entry: EntryView, matched: bool)
    requires
        entry.kind == EntryKind::Directory,
    ensures
        verdict(config, entry, matched) == verdict(config, entry, !matched),
{
}

/// While symbolic links are not followed, none is kept or descended into.
pub proof fn lemma_links_are_skipped(config: ConfigView, entry: EntryView, matched: bool)
    requires
        !config.follow_symlinks,
        entry.is_symlink,
    ensures
        verdict(config, entry, matched) == Verdict::Skip,
{
}

/// Once symbolic links are followed, a link is judged as the thing it points
/// to: a linked directory is descended into like any other.
pub proof fn lemma_followed_links_count(config: ConfigView, entry: EntryView, matched: bool)
    requires
        config.follow_symlinks,
    ensures
        verdict(config, entry, matched) == verdict(
            config,
            EntryView { is_symlink: false, ..entry },
            matched,
        ),
{
}

} // verus!
