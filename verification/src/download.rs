//! What a download does once the files are fetched and the fresh hash index
//! is compared with the one in `spec/`.
use vstd::prelude::*;

verus! {

/// The steps a download takes after fetching.
#[derive(Clone, Copy, Debug, PartialEq, Eq, Structural)]
pub struct DownloadPlan {
    /// Say that the files are up to date.
    pub report_up_to_date: bool,
    /// Print the differences between the stored index and the fresh one.
    pub show_diff: bool,
    /// Say that a dry run applies no change.
    pub announce_dry_run: bool,
    /// Ask before replacing `spec/`.
    pub ask_confirmation: bool,
    /// Replace `spec/` by the fetched files and write `spec/index.txt`.
    pub replace_spec: bool,
    /// End with an error that names the files that failed to download.
    pub report_failures: bool,
    /// Keep what was fetched; a dry run fetches into a scratch directory
    /// and throws it away.
    pub keep_fetched: bool,
}

/// The fetched files differ from what `spec/` holds: there is no stored
/// index, or it is not the fresh one.
pub open spec fn has_changes(index_exists: bool, up_to_date: bool) -> bool {
    !index_exists || !up_to_date
}

/// The plan of a download: `index_exists` says whether `spec/index.txt`
/// exists, `up_to_date` whether it equals the fresh index, `dry_run`
/// whether no file may be modified, and `failed` names the files that
/// failed to download. A dry run never replaces `spec/`; the differences
/// are shown when a stored index differs from the fresh one; the user is
/// asked before a stored index is replaced; what a dry run fetched is
/// thrown away.
pub fn download_plan(index_exists: bool, up_to_date: bool, dry_run: bool, failed: &Vec<String>) -> (p: DownloadPlan)
    ensures
        p.report_up_to_date == (index_exists && up_to_date),
        p.show_diff == (index_exists && !up_to_date),
        p.announce_dry_run == (dry_run && has_changes(index_exists, up_to_date)),
        p.ask_confirmation == (index_exists && !up_to_date && !dry_run),
        p.replace_spec == (!dry_run && has_changes(index_exists, up_to_date)),
        p.report_failures == (failed@.len() > 0),
        p.keep_fetched == !dry_run,
        dry_run ==> !p.replace_spec && !p.keep_fetched,
{
    let changes = !index_exists || !up_to_date;
    let diff = index_exists && !up_to_date;
    DownloadPlan {
        report_up_to_date: index_exists && up_to_date,
        show_diff: diff,
        announce_dry_run: dry_run && changes,
        ask_confirmation: diff && !dry_run,
        replace_spec: !dry_run && changes,
        report_failures: failed.len() > 0,
        keep_fetched: !dry_run,
    }
}

/// What is known so far of the fetch of one specification.
#[derive(Clone, Copy, Debug, PartialEq, Eq, Structural)]
pub struct FetchFacts {
    /// The source is a zip archive, not a PDF.
    pub is_zip: bool,
    /// The PDF or archive is already in the download cache.
    pub cached: bool,
    /// Whether wget succeeded, once it ran.
    pub fetched: Option<bool>,
    /// Whether unzip succeeded, once it ran.
    pub unpacked: Option<bool>,
    /// Whether the PDF named in the archive was found, once looked for.
    pub extracted: Option<bool>,
}

/// The next step of the fetch of one specification. `in_cache` says
/// whether it works in the download cache or in the scratch directory of
/// a dry run.
#[derive(Clone, Copy, Debug, PartialEq, Eq, Structural)]
pub enum FetchStep {
    /// Run wget.
    Download { in_cache: bool },
    /// wget failed: remove what it left and fail.
    DiscardAndFail { in_cache: bool },
    /// Unpack the fetched archive.
    Unpack { in_cache: bool },
    /// unzip failed: fail.
    FailUnpack,
    /// Look for the PDF named in the archive.
    LookForExtracted { in_cache: bool },
    /// The archive holds no such PDF: fail.
    FailMissingExtracted,
    /// Copy the PDF into the new `spec/`; the fetch is done.
    Copy { in_cache: bool },
}

/// The file is at hand: cached, or fetched with success.
pub open spec fn at_hand(f: FetchFacts) -> bool {
    f.cached || f.fetched == Some(true)
}

/// The PDF of an archive at hand is ready to be looked for: the archive
/// was cached, or unpacked with success.
pub open spec fn unpacked_ok(f: FetchFacts) -> bool {
    f.cached || f.unpacked == Some(true)
}

/// Where the file at hand lies: in the cache, unless a dry run fetched it.
pub open spec fn read_from_cache(f: FetchFacts, dry_run: bool) -> bool {
    f.cached || !dry_run
}

/// The next step of a fetch: a file not cached is fetched (into the
/// cache, or into scratch in a dry run), and a failed fetch is removed; an
/// archive fetched is unpacked; the PDF named in an archive is looked for;
/// then the PDF is copied. A dry run puts nothing into the cache.
pub fn next_fetch_step(f: FetchFacts, dry_run: bool) -> (r: FetchStep)
    ensures
        !f.cached && f.fetched is None ==> r == (FetchStep::Download { in_cache: !dry_run }),
        !f.cached && f.fetched == Some(false) ==> r == (FetchStep::DiscardAndFail {
            in_cache: !dry_run,
        }),
        at_hand(f) && !f.is_zip ==> r == (FetchStep::Copy { in_cache: read_from_cache(f, dry_run) }),
        at_hand(f) && f.is_zip && !f.cached && f.unpacked is None ==> r == (FetchStep::Unpack {
            in_cache: !dry_run,
        }),
        at_hand(f) && f.is_zip && !f.cached && f.unpacked == Some(false) ==> r
            == FetchStep::FailUnpack,
        at_hand(f) && f.is_zip && unpacked_ok(f) && f.extracted is None ==> r == (
        FetchStep::LookForExtracted { in_cache: read_from_cache(f, dry_run) }),
        at_hand(f) && f.is_zip && unpacked_ok(f) && f.extracted == Some(false) ==> r
            == FetchStep::FailMissingExtracted,
        at_hand(f) && f.is_zip && unpacked_ok(f) && f.extracted == Some(true) ==> r == (
        FetchStep::Copy { in_cache: read_from_cache(f, dry_run) }),
        dry_run ==> !(r matches FetchStep::Download { in_cache: true }) && !(r matches FetchStep::Unpack {
            in_cache: true,
        }),
        !f.cached ==> (r matches FetchStep::Copy { in_cache } ==> in_cache == !dry_run),
        !f.cached ==> (r matches FetchStep::LookForExtracted { in_cache } ==> in_cache == !dry_run),
        f.cached ==> (r matches FetchStep::Copy { in_cache } ==> in_cache),
        f.cached ==> (r matches FetchStep::LookForExtracted { in_cache } ==> in_cache),
{
    if !f.cached {
        match f.fetched {
            None => {
                return FetchStep::Download { in_cache: !dry_run };
            },
            Some(false) => {
                return FetchStep::DiscardAndFail { in_cache: !dry_run };
            },
            Some(true) => {},
        }
    }
    let from_cache = f.cached || !dry_run;
    if !f.is_zip {
        return FetchStep::Copy { in_cache: from_cache };
    }
    if !f.cached {
        match f.unpacked {
            None => {
                return FetchStep::Unpack { in_cache: !dry_run };
            },
            Some(false) => {
                return FetchStep::FailUnpack;
            },
            Some(true) => {},
        }
    }
    match f.extracted {
        None => FetchStep::LookForExtracted { in_cache: from_cache },
        Some(false) => FetchStep::FailMissingExtracted,
        Some(true) => FetchStep::Copy { in_cache: from_cache },
    }
}

/// A file is read where it lies: a cached file in the cache, a file fetched
/// in the cache, or in the scratch directory in a dry run, where the
/// download put it; for a PDF as for an archive.
pub proof fn lemma_read_where_fetched(f: FetchFacts, dry_run: bool)
    ensures
        f.cached ==> read_from_cache(f, dry_run),
        !f.cached ==> read_from_cache(f, dry_run) == !dry_run,
{
}

} // verus!
