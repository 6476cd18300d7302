//! The catalogue of generations, and the menu entry of one generation.
//!
//! A generation is one numbered build under a profile. The caller lists the
//! profiles' directory and runs the generation lister; this module
//! reads what they give, resolves a generation to its link, and writes the
//! generation's menu entry while it notes every file that the entry needs
//! on the boot partition.

use vstd::prelude::*;
use crate::bootspec::{BootRecord, BootSpec};
use crate::config::{InstallConfig, ToolOutput};
use crate::fs::{FileTracker, lemma_mark_all_concat, mark_all};
use crate::menu::{escape_quotes, quotes_escaped};
use crate::path::{file_name, file_name_of, join, join_path, parent, parent_of};
use crate::text::{
    chars_of, decimal, ends_with, first_token, first_token_range, has_suffix, lines, lines_of,
    owned, parse_u64, parse_u64_range, push_decimal, push_joined, push_text, same_text, texts,
};

verus! {

/// The directory that holds the system profile's links.
pub const PROFILES_DIR: &'static str = "/nix/var/nix/profiles";

/// The directory, under [`PROFILES_DIR`], that holds the named profiles.
pub const NAMED_PROFILES_DIR: &'static str = "system-profiles";

/// Name of the link of generation `number` of the profile `name`.
pub open spec fn link_name(name: Seq<char>, number: nat) -> Seq<char> {
    name + "-"@ + decimal(number) + "-link"@
}

/// Where a generation lies: the link of generation `generation` of
/// `profile`, or the profile's own link where no generation is given, and
/// below it the directory of the specialisation `spec` where one is given.
/// The profile `system` lies in [`PROFILES_DIR`], every other in
/// [`NAMED_PROFILES_DIR`] below it.
pub open spec fn system_path(
    profile: Seq<char>,
    generation: Option<u64>,
    spec: Option<Seq<char>>,
) -> Seq<char> {
    let base = match generation {
        Some(g) => link_name(profile, g as nat),
        None => profile,
    };
    let root = if profile == "system"@ {
        join(PROFILES_DIR@, base)
    } else {
        join(join(PROFILES_DIR@, NAMED_PROFILES_DIR@), base)
    };
    match spec {
        Some(s) => join(join(root, "specialisation"@), s),
        None => root,
    }
}

/// Appends [`link_name`] of `name` and `number` to `out`.
pub fn push_link_name(out: &mut String, name: &str, number: u64)
    ensures
        final(out)@ == old(out)@ + link_name(name@, number as nat),
{
    push_text(out, name);
    push_text(out, "-");
    push_decimal(out, number);
    push_text(out, "-link");
    assert(old(out)@ + name@ + "-"@ + decimal(number as nat) + "-link"@ == old(out)@ + (name@ + "-"@
        + decimal(number as nat) + "-link"@));
}

/// Computes [`system_path`]. No file is looked at.
pub fn get_system_path(profile: &str, generation: Option<u64>, spec: Option<&str>) -> (r: String)
    ensures
        r@ == system_path(
            profile@,
            generation,
            match spec {
                Some(s) => Some(s@),
                None => None,
            },
        ),
{
    let mut base = String::new();
    match generation {
        Some(g) => {
            push_link_name(&mut base, profile, g);
            assert(Seq::<char>::empty() + link_name(profile@, g as nat) == link_name(
                profile@,
                g as nat,
            ));
        },
        None => {
            push_text(&mut base, profile);
            assert(Seq::<char>::empty() + profile@ == profile@);
        },
    }
    let root = if same_text(profile, "system") {
        join_path(PROFILES_DIR, base.as_str())
    } else {
        let dir = join_path(PROFILES_DIR, NAMED_PROFILES_DIR);
        join_path(dir.as_str(), base.as_str())
    };
    match spec {
        Some(s) => {
            let dir = join_path(root.as_str(), "specialisation");
            join_path(dir.as_str(), s)
        },
        None => root,
    }
}

/// Whether an entry of the profiles' directory is the link of a generation
/// and not a profile.
pub open spec fn is_generation_link(name: Seq<char>) -> bool {
    ends_with(name, "-link"@)
}

/// The names of the profiles among `entries`, the names found in the
/// directory of the named profiles: those that are no generation's link, in
/// the order in which they were found. A directory that does not exist has
/// no entries.
pub fn get_profiles(entries: &Vec<String>) -> (r: Vec<String>)
    ensures
        texts(r@) == texts(entries@).filter(|name: Seq<char>| !is_generation_link(name)),
{
    let ghost keep = |name: Seq<char>| !is_generation_link(name);
    let mut profiles: Vec<String> = Vec::new();
    let mut i: usize = 0;
    proof {
        reveal(Seq::filter);
        assert(texts(entries@).subrange(0, 0) == Seq::<Seq<char>>::empty());
        assert(texts(profiles@) == Seq::<Seq<char>>::empty());
    }
    while i < entries.len()
        invariant
            i <= entries.len(),
            keep == |name: Seq<char>| !is_generation_link(name),
            texts(profiles@) == texts(entries@).subrange(0, i as int).filter(keep),
        decreases entries.len() - i,
    {
        let ghost before = texts(profiles@);
        proof {
            reveal(Seq::filter);
            let next = texts(entries@).subrange(0, i + 1);
            assert(next.drop_last() == texts(entries@).subrange(0, i as int));
            assert(next.last() == entries@[i as int]@);
        }
        if !has_suffix(entries[i].as_str(), "-link") {
            profiles.push(owned(entries[i].as_str()));
            assert(texts(profiles@) == before.push(entries@[i as int]@));
        }
        i += 1;
    }
    assert(texts(entries@).subrange(0, entries.len() as int) == texts(entries@));
    profiles
}

/// Why the generations of a profile could not be listed.
#[derive(Debug, Clone, Copy, PartialEq, Eq, Structural)]
pub enum CatalogError {
    /// The generation lister exited with a status other than zero.
    ListerFailed,
}

/// The program and arguments that list the generations of `profile`.
pub open spec fn lister_command(profile: Seq<char>, nix_path: Seq<char>) -> Seq<Seq<char>> {
    seq![
        "sudo"@,
        join(nix_path, "bin/nix-env"@),
        "--list-generations"@,
        "-p"@,
        system_path(profile, None, None),
        "--option"@,
        "build-users-group"@,
        Seq::empty(),
    ]
}

/// Computes [`lister_command`] for the lister under `config.nix_path`.
pub fn generation_lister_command(profile: &str, config: &InstallConfig) -> (r: Vec<String>)
    ensures
        texts(r@) == lister_command(profile@, config.nix_path@),
{
    let mut r: Vec<String> = Vec::new();
    r.push(owned("sudo"));
    r.push(join_path(config.nix_path.as_str(), "bin/nix-env"));
    r.push(owned("--list-generations"));
    r.push(owned("-p"));
    r.push(get_system_path(profile, None, None));
    r.push(owned("--option"));
    r.push(owned("build-users-group"));
    r.push(String::new());
    assert(texts(r@) =~= lister_command(profile@, config.nix_path@));
    r
}

/// The generation that a line of the lister's output names: the number that
/// its first field writes, if it has a first field and that is a number.
pub open spec fn line_generation(line: Seq<char>) -> Option<u64> {
    match first_token(line) {
        Some(token) => parse_u64(token),
        None => None,
    }
}

/// The generations that `lines` name, in order; a line that names none is
/// passed over.
pub open spec fn listed_generations(lines: Seq<Seq<char>>) -> Seq<u64>
    decreases lines.len(),
{
    if lines.len() == 0 {
        Seq::empty()
    } else {
        match line_generation(lines.last()) {
            Some(n) => listed_generations(lines.drop_last()).push(n),
            None => listed_generations(lines.drop_last()),
        }
    }
}

/// The last `cap` of `generations`, or all of them if they are no more.
pub open spec fn newest(generations: Seq<u64>, cap: nat) -> Seq<u64> {
    if generations.len() > cap {
        generations.subrange(generations.len() - cap, generations.len() as int)
    } else {
        generations
    }
}

/// Computes [`line_generation`].
pub fn parse_generation_line(line: &str) -> (r: Option<u64>)
    ensures
        r == line_generation(line@),
{
    let v = chars_of(line);
    assert(v@.subrange(0, v.len() as int) == v@);
    let (a, b) = first_token_range(&v, 0, v.len());
    if a == b {
        None
    } else {
        parse_u64_range(&v, a, b)
    }
}

/// Computes [`listed_generations`] of the lines of `output`.
pub fn parse_generations(output: &str) -> (r: Vec<u64>)
    ensures
        r@ == listed_generations(lines(output@)),
{
    let all = lines_of(output);
    let mut out: Vec<u64> = Vec::new();
    let mut i: usize = 0;
    assert(texts(all@).subrange(0, 0) == Seq::<Seq<char>>::empty());
    while i < all.len()
        invariant
            i <= all.len(),
            out@ == listed_generations(texts(all@).subrange(0, i as int)),
        decreases all.len() - i,
    {
        proof {
            let next = texts(all@).subrange(0, i + 1);
            assert(next.drop_last() == texts(all@).subrange(0, i as int));
            assert(next.last() == all@[i as int]@);
        }
        match parse_generation_line(all[i].as_str()) {
            Some(n) => {
                out.push(n);
            },
            None => {},
        }
        i += 1;
    }
    assert(texts(all@).subrange(0, all.len() as int) == texts(all@));
    out
}

/// The generations of a profile that are kept, oldest first: those that the
/// lister's output names, cut down to the `config.max_generations` newest.
/// A lister that failed gives an error.
pub fn get_generations(listing: &ToolOutput, config: &InstallConfig) -> (r: Result<
    Vec<u64>,
    CatalogError,
>)
    ensures
        match r {
            Ok(generations) => listing.success && generations@ == newest(
                listed_generations(lines(listing.stdout@)),
                config.max_generations as nat,
            ),
            Err(e) => !listing.success && e == CatalogError::ListerFailed,
        },
{
    if !listing.success {
        return Err(CatalogError::ListerFailed);
    }
    let all = parse_generations(listing.stdout.as_str());
    if all.len() > config.max_generations {
        let skip: usize = all.len() - config.max_generations;
        let mut kept: Vec<u64> = Vec::new();
        let mut i: usize = skip;
        while i < all.len()
            invariant
                skip <= i <= all.len(),
                kept@ == all@.subrange(skip as int, i as int),
            decreases all.len() - i,
        {
            kept.push(all[i]);
            i += 1;
        }
        Ok(kept)
    } else {
        Ok(all)
    }
}

/// Why a file could not be staged.
#[derive(Debug, Clone, Copy, PartialEq, Eq, Structural)]
pub enum StageError {
    /// The file's path has no parent directory.
    NoParentDirectory,
    /// The parent directory's path has no last component.
    InvalidPackageId,
    /// The file's path has no last component.
    InvalidFileName,
}

/// A file that a menu entry needs on the boot partition.
#[derive(Debug, PartialEq, Eq)]
pub struct StagedFile {
    /// Where the file lies in the store.
    pub source: String,
    /// Where it belongs on the boot partition.
    pub destination: String,
    /// How the boot manager's configuration refers to it.
    pub uri: String,
}

/// The view of a [`StagedFile`].
pub struct StagedView {
    pub source: Seq<char>,
    pub destination: Seq<char>,
    pub uri: Seq<char>,
}

impl View for StagedFile {
    type V = StagedView;

    open spec fn view(&self) -> StagedView {
        StagedView { source: self.source@, destination: self.destination@, uri: self.uri@ }
    }
}

/// The views of a list of staged files.
pub open spec fn staged_views(v: Seq<StagedFile>) -> Seq<StagedView> {
    Seq::new(v.len(), |i: int| v[i]@)
}

/// The destinations of a list of staged files.
pub open spec fn destinations(v: Seq<StagedView>) -> Seq<Seq<char>> {
    Seq::new(v.len(), |i: int| v[i].destination)
}

/// The directory, under the boot manager's own, that holds the staged files.
pub const KERNELS_DIR: &'static str = "kernels";

/// How the configuration refers to the directory of the staged files.
pub const KERNELS_URI: &'static str = "/efi/refind/kernels/";

/// Name under which the file at `source` is staged: the name of the store
/// directory that holds it, a hyphen, and its own name. The name of the store
/// directory stands for the content, so that one file is staged once however
/// many generations refer to it.
pub open spec fn staged_name(source: Seq<char>) -> Result<Seq<char>, StageError> {
    match parent(source) {
        None => Err(StageError::NoParentDirectory),
        Some(dir) => match file_name(dir) {
            None => Err(StageError::InvalidPackageId),
            Some(package) => match file_name(source) {
                None => Err(StageError::InvalidFileName),
                Some(file) => Ok(package + "-"@ + file),
            },
        },
    }
}

/// Where the file at `source` is staged below `refind_dir`, and how the
/// configuration refers to it.
pub open spec fn staging(source: Seq<char>, refind_dir: Seq<char>) -> Result<
    StagedView,
    StageError,
> {
    match staged_name(source) {
        Err(e) => Err(e),
        Ok(name) => Ok(
            StagedView {
                source,
                destination: join(join(refind_dir, KERNELS_DIR@), name),
                uri: KERNELS_URI@ + name,
            },
        ),
    }
}

/// Stages the file at `source`, a path with every link resolved: computes
/// [`staging`] and marks the destination as used. The caller copies the file
/// to the destination unless it is already there.
pub fn copy_kernel_to_efi(source: &str, refind_dir: &str, file_tracker: &mut FileTracker) -> (r:
    Result<StagedFile, StageError>)
    requires
        old(file_tracker).well_formed(),
    ensures
        final(file_tracker).well_formed(),
        match r {
            Ok(staged) => staging(source@, refind_dir@) == Ok::<StagedView, StageError>(staged@)
                && final(file_tracker)@ == old(file_tracker)@.insert(staged.destination@, true),
            Err(e) => staging(source@, refind_dir@) == Err::<StagedView, StageError>(e)
                && final(file_tracker)@ == old(file_tracker)@,
        },
{
    let dir = match parent_of(source) {
        Some(dir) => dir,
        None => {
            return Err(StageError::NoParentDirectory);
        },
    };
    let package = match file_name_of(dir.as_str()) {
        Some(package) => package,
        None => {
            return Err(StageError::InvalidPackageId);
        },
    };
    let file = match file_name_of(source) {
        Some(file) => file,
        None => {
            return Err(StageError::InvalidFileName);
        },
    };
    let mut name = String::new();
    push_text(&mut name, package.as_str());
    push_text(&mut name, "-");
    push_text(&mut name, file.as_str());
    assert(name@ == package@ + "-"@ + file@);
    let kernels = join_path(refind_dir, KERNELS_DIR);
    let destination = join_path(kernels.as_str(), name.as_str());
    let mut uri = owned(KERNELS_URI);
    push_text(&mut uri, name.as_str());
    file_tracker.mark_used(destination.as_str());
    Ok(StagedFile { source: owned(source), destination, uri })
}

/// Two files that lie under store directories of one name and have one name
/// themselves are staged at one destination and referred to in one way,
/// wherever else their paths differ.
pub proof fn lemma_staging_by_name(first: Seq<char>, second: Seq<char>, refind_dir: Seq<char>)
    requires
        parent(first) is Some,
        parent(second) is Some,
        file_name(parent(first)->0) == file_name(parent(second)->0),
        file_name(first) == file_name(second),
    ensures
        staged_name(first) == staged_name(second),
        staging(first, refind_dir) is Ok ==> staging(second, refind_dir) is Ok && staging(
            first,
            refind_dir,
        )->Ok_0.destination == staging(second, refind_dir)->Ok_0.destination && staging(
            first,
            refind_dir,
        )->Ok_0.uri == staging(second, refind_dir)->Ok_0.uri,
{
}

/// The kernel's command line for `record`: `init=` and the path of the init
/// program, then the record's parameters as they are, with one space between
/// any two.
pub open spec fn options_line(record: BootRecord) -> Seq<char> {
    crate::text::join(seq!["init="@ + record.base.init] + record.base.kernel_params, " "@)
}

/// One block of the menu: `menuentry`, or `submenuentry` for a block inside
/// another, with the label, the loader, the initial ramdisk where there is
/// one, and the options between quotes, each quote inside them doubled.
pub open spec fn entry_text(
    is_submenu: bool,
    label: Seq<char>,
    loader: Seq<char>,
    initrd: Option<Seq<char>>,
    options: Seq<char>,
) -> Seq<char> {
    (if is_submenu {
        "sub"@
    } else {
        Seq::empty()
    }) + "menuentry \""@ + label + "\" {\n"@ + "  loader "@ + loader + "\n"@ + (match initrd {
        Some(uri) => "  initrd "@ + uri + "\n"@,
        None => Seq::empty(),
    }) + "  options \""@ + quotes_escaped(options) + "\"\n"@ + "}\n"@
}

/// What writing a piece of the menu comes to: the files that were staged on
/// the way, in order, and the text, or the error that stopped the writing.
pub struct Synthesis {
    pub staged: Seq<StagedView>,
    pub outcome: Result<Seq<char>, StageError>,
}

/// A menu entry and the files that it needs on the boot partition.
#[derive(Debug, PartialEq, Eq)]
pub struct ConfigEntry {
    pub text: String,
    pub staged: Vec<StagedFile>,
}

/// Whether `r` is what `synthesis` comes to.
pub open spec fn yields(synthesis: Synthesis, r: Result<ConfigEntry, StageError>) -> bool {
    match r {
        Ok(entry) => synthesis.outcome == Ok::<Seq<char>, StageError>(entry.text@)
            && staged_views(entry.staged@) == synthesis.staged,
        Err(e) => synthesis.outcome == Err::<Seq<char>, StageError>(e),
    }
}

/// The block for `record` under `label`: the kernel is staged, then the
/// initial ramdisk if the record has one, and the first that cannot be
/// staged stops the writing.
pub open spec fn boot_entry(
    is_submenu: bool,
    record: BootRecord,
    label: Seq<char>,
    refind_dir: Seq<char>,
) -> Synthesis {
    match staging(record.base.kernel, refind_dir) {
        Err(e) => Synthesis { staged: Seq::empty(), outcome: Err(e) },
        Ok(kernel) => match record.base.initrd {
            None => Synthesis {
                staged: seq![kernel],
                outcome: Ok(
                    entry_text(is_submenu, label, kernel.uri, None, options_line(record)),
                ),
            },
            Some(path) => match staging(path, refind_dir) {
                Err(e) => Synthesis { staged: seq![kernel], outcome: Err(e) },
                Ok(initrd) => Synthesis {
                    staged: seq![kernel, initrd],
                    outcome: Ok(
                        entry_text(
                            is_submenu,
                            label,
                            kernel.uri,
                            Some(initrd.uri),
                            options_line(record),
                        ),
                    ),
                },
            },
        },
    }
}

/// Writes the block for `bootspec` under `label`: computes [`boot_entry`],
/// and marks in `file_tracker` every file that was staged. `bootspec` names
/// its kernel and initial ramdisk by paths with every link resolved. The
/// caller copies the staged files that are not yet in place.
pub fn format_boot_entry(
    is_submenu: bool,
    bootspec: &BootSpec,
    label: &str,
    _timestamp: &str,
    refind_dir: &str,
    file_tracker: &mut FileTracker,
) -> (r: Result<ConfigEntry, StageError>)
    requires
        old(file_tracker).well_formed(),
    ensures
        final(file_tracker).well_formed(),
        yields(boot_entry(is_submenu, bootspec@, label@, refind_dir@), r),
        final(file_tracker)@ == mark_all(
            old(file_tracker)@,
            destinations(boot_entry(is_submenu, bootspec@, label@, refind_dir@).staged),
        ),
{
    let ghost synthesis = boot_entry(is_submenu, bootspec@, label@, refind_dir@);
    let ghost start = old(file_tracker)@;
    let mut staged: Vec<StagedFile> = Vec::new();
    let mut text = String::new();
    if is_submenu {
        push_text(&mut text, "sub");
    }
    push_text(&mut text, "menuentry \"");
    push_text(&mut text, label);
    push_text(&mut text, "\" {\n");
    let kernel = match copy_kernel_to_efi(bootspec.kernel.as_str(), refind_dir, file_tracker) {
        Ok(kernel) => kernel,
        Err(e) => {
            assert(destinations(synthesis.staged) =~= Seq::<Seq<char>>::empty());
            return Err(e);
        },
    };
    push_text(&mut text, "  loader ");
    push_text(&mut text, kernel.uri.as_str());
    push_text(&mut text, "\n");
    let ghost kernel_view = kernel@;
    proof {
        assert(mark_all(start, seq![kernel_view.destination]) == start.insert(
            kernel_view.destination,
            true,
        )) by {
            assert(seq![kernel_view.destination].drop_last() == Seq::<Seq<char>>::empty());
            assert(mark_all(start, Seq::<Seq<char>>::empty()) == start);
        }
    }
    staged.push(kernel);
    let ghost after_loader = text@;
    let ghost initrd_uri: Option<Seq<char>> = None;
    match &bootspec.initrd {
        Some(path) => {
            let initrd = match copy_kernel_to_efi(path.as_str(), refind_dir, file_tracker) {
                Ok(initrd) => initrd,
                Err(e) => {
                    assert(destinations(synthesis.staged) =~= seq![kernel_view.destination]);
                    return Err(e);
                },
            };
            push_text(&mut text, "  initrd ");
            push_text(&mut text, initrd.uri.as_str());
            push_text(&mut text, "\n");
            proof {
                initrd_uri = Some(initrd.uri@);
                let both = seq![kernel_view.destination, initrd@.destination];
                assert(both.drop_last() == seq![kernel_view.destination]);
                assert(destinations(synthesis.staged) =~= both);
            }
            staged.push(initrd);
        },
        None => {
            assert(destinations(synthesis.staged) =~= seq![kernel_view.destination]);
        },
    }
    assert(staged_views(staged@) =~= synthesis.staged);
    assert(text@ == after_loader + (match initrd_uri {
        Some(uri) => "  initrd "@ + uri + "\n"@,
        None => Seq::empty(),
    }));
    let mut params: Vec<String> = Vec::new();
    let mut first = owned("init=");
    push_text(&mut first, bootspec.init.as_str());
    params.push(first);
    let mut i: usize = 0;
    assert(texts(params@) =~= seq!["init="@ + bootspec.init@] + texts(
        bootspec.kernel_params@,
    ).subrange(0, 0));
    while i < bootspec.kernel_params.len()
        invariant
            i <= bootspec.kernel_params.len(),
            texts(params@) == seq!["init="@ + bootspec.init@] + texts(
                bootspec.kernel_params@,
            ).subrange(0, i as int),
        decreases bootspec.kernel_params.len() - i,
    {
        let ghost before = texts(params@);
        params.push(owned(bootspec.kernel_params[i].as_str()));
        assert(texts(params@) =~= before.push(bootspec.kernel_params@[i as int]@));
        assert(texts(params@) =~= seq!["init="@ + bootspec.init@] + texts(
            bootspec.kernel_params@,
        ).subrange(0, i + 1));
        i += 1;
    }
    assert(texts(bootspec.kernel_params@).subrange(0, bootspec.kernel_params.len() as int)
        == texts(bootspec.kernel_params@));
    let mut options = String::new();
    push_joined(&mut options, &params, " ");
    assert(options@ == options_line(bootspec@)) by {
        assert(Seq::<char>::empty() + options_line(bootspec@) == options_line(bootspec@));
    }
    let escaped = escape_quotes(options.as_str());
    push_text(&mut text, "  options \"");
    push_text(&mut text, escaped.as_str());
    push_text(&mut text, "\"\n");
    push_text(&mut text, "}\n");
    assert(text@ == entry_text(
        is_submenu,
        label@,
        kernel_view.uri,
        initrd_uri,
        options_line(bootspec@),
    )) by {
        assert(Seq::<char>::empty() + "sub"@ == "sub"@);
    }
    Ok(ConfigEntry { text, staged })
}

/// What `before` comes to once the block for `item`, a record with its
/// label, is written after it. Nothing is written after an error.
pub open spec fn extended(
    before: Synthesis,
    item: (Seq<char>, BootRecord),
    refind_dir: Seq<char>,
) -> Synthesis {
    match before.outcome {
        Err(_) => before,
        Ok(text) => {
            let block = boot_entry(true, item.1, item.0, refind_dir);
            Synthesis {
                staged: before.staged + block.staged,
                outcome: match block.outcome {
                    Ok(written) => Ok(text + written),
                    Err(e) => Err(e),
                },
            }
        },
    }
}

/// The blocks for `items`, records with their labels, one after another: the
/// first file that cannot be staged stops the writing, and what was staged
/// before it stays staged.
pub open spec fn boot_entries(items: Seq<(Seq<char>, BootRecord)>, refind_dir: Seq<char>) -> Synthesis
    decreases items.len(),
{
    if items.len() == 0 {
        Synthesis { staged: Seq::empty(), outcome: Ok(Seq::empty()) }
    } else {
        extended(boot_entries(items.drop_last(), refind_dir), items.last(), refind_dir)
    }
}

/// The blocks for the first `k + 1` of `items` are those for the first `k`,
/// extended by the block for the next.
pub proof fn lemma_boot_entries_step(
    items: Seq<(Seq<char>, BootRecord)>,
    k: int,
    refind_dir: Seq<char>,
)
    requires
        0 <= k < items.len(),
    ensures
        boot_entries(items.subrange(0, k + 1), refind_dir) == extended(
            boot_entries(items.subrange(0, k), refind_dir),
            items[k],
            refind_dir,
        ),
        k == 0 ==> boot_entries(items.subrange(0, k), refind_dir) == (Synthesis {
            staged: Seq::empty(),
            outcome: Ok(Seq::empty()),
        }),
{
    let next = items.subrange(0, k + 1);
    assert(next.drop_last() == items.subrange(0, k));
    assert(next.last() == items[k]);
}

/// Once the writing has stopped at one of `items`, the items after it change
/// nothing.
pub proof fn lemma_boot_entries_stop(
    items: Seq<(Seq<char>, BootRecord)>,
    k: int,
    refind_dir: Seq<char>,
)
    requires
        0 <= k <= items.len(),
        boot_entries(items.subrange(0, k), refind_dir).outcome is Err,
    ensures
        boot_entries(items, refind_dir) == boot_entries(items.subrange(0, k), refind_dir),
    decreases items.len() - k,
{
    if k < items.len() {
        lemma_boot_entries_step(items, k, refind_dir);
        lemma_boot_entries_stop(items, k + 1, refind_dir);
    } else {
        assert(items.subrange(0, k) == items);
    }
}

/// Marking what `before` staged and then what the block for `item` staged is
/// marking what the two staged together.
pub proof fn lemma_extended_marks(
    files: Map<Seq<char>, bool>,
    before: Synthesis,
    item: (Seq<char>, BootRecord),
    refind_dir: Seq<char>,
)
    requires
        before.outcome is Ok,
    ensures
        mark_all(files, destinations(extended(before, item, refind_dir).staged)) == mark_all(
            mark_all(files, destinations(before.staged)),
            destinations(boot_entry(true, item.1, item.0, refind_dir).staged),
        ),
{
    let block = boot_entry(true, item.1, item.0, refind_dir);
    lemma_mark_all_concat(files, destinations(before.staged), destinations(block.staged));
    assert(destinations(before.staged) + destinations(block.staged) =~= destinations(
        before.staged + block.staged,
    ));
}

/// Title of the generation `generation` of the group `group_name`.
pub open spec fn generation_title(group_name: Seq<char>, generation: u64) -> Seq<char> {
    "NixOS "@ + group_name + " Generation "@ + decimal(generation as nat)
}

/// The blocks inside the entry of a generation with specialisations: the
/// record itself under the label `Default`, then each specialisation under
/// its name.
pub open spec fn nested_items(record: BootRecord) -> Seq<(Seq<char>, BootRecord)> {
    seq![("Default"@, record)] + record.specialisations
}

/// The menu entry of a generation. Without specialisations it is one block
/// under the generation's title. With specialisations it is an entry under
/// that title that holds the blocks of [`nested_items`].
pub open spec fn config_entry(
    record: BootRecord,
    generation: u64,
    group_name: Seq<char>,
    refind_dir: Seq<char>,
) -> Synthesis {
    let title = generation_title(group_name, generation);
    if record.specialisations.len() > 0 {
        let inner = boot_entries(nested_items(record), refind_dir);
        Synthesis {
            staged: inner.staged,
            outcome: match inner.outcome {
                Ok(blocks) => Ok("menuentry \""@ + title + "\" {\n"@ + blocks + "}\n"@),
                Err(e) => Err(e),
            },
        }
    } else {
        boot_entry(false, record, title, refind_dir)
    }
}

/// Writes the block for `item`, a record with its label, after what `entry`
/// holds: computes [`extended`].
fn extend_entry(
    entry: ConfigEntry,
    label: &str,
    bootspec: &BootSpec,
    timestamp: &str,
    refind_dir: &str,
    file_tracker: &mut FileTracker,
    Ghost(before): Ghost<Synthesis>,
    Ghost(start): Ghost<Map<Seq<char>, bool>>,
) -> (r: Result<ConfigEntry, StageError>)
    requires
        old(file_tracker).well_formed(),
        yields(before, Ok(entry)),
        old(file_tracker)@ == mark_all(start, destinations(before.staged)),
    ensures
        final(file_tracker).well_formed(),
        yields(extended(before, (label@, bootspec@), refind_dir@), r),
        final(file_tracker)@ == mark_all(
            start,
            destinations(extended(before, (label@, bootspec@), refind_dir@).staged),
        ),
{
    let ghost block = boot_entry(true, bootspec@, label@, refind_dir@);
    proof {
        lemma_extended_marks(start, before, (label@, bootspec@), refind_dir@);
    }
    let ConfigEntry { text, staged } = entry;
    let mut text = text;
    let mut staged = staged;
    let mut written = match format_boot_entry(
        true,
        bootspec,
        label,
        timestamp,
        refind_dir,
        file_tracker,
    ) {
        Ok(written) => written,
        Err(e) => {
            return Err(e);
        },
    };
    let ghost held = staged_views(staged@);
    push_text(&mut text, written.text.as_str());
    staged.append(&mut written.staged);
    assert(staged_views(staged@) =~= held + block.staged);
    Ok(ConfigEntry { text, staged })
}

/// Writes the blocks inside the entry of a generation with specialisations:
/// computes [`boot_entries`] of [`nested_items`].
fn nested_entries(
    bootspec: &BootSpec,
    timestamp: &str,
    refind_dir: &str,
    file_tracker: &mut FileTracker,
) -> (r: Result<ConfigEntry, StageError>)
    requires
        old(file_tracker).well_formed(),
    ensures
        final(file_tracker).well_formed(),
        yields(boot_entries(nested_items(bootspec@), refind_dir@), r),
        final(file_tracker)@ == mark_all(
            old(file_tracker)@,
            destinations(boot_entries(nested_items(bootspec@), refind_dir@).staged),
        ),
{
    let ghost start = old(file_tracker)@;
    let ghost items = nested_items(bootspec@);
    let ghost nothing = Synthesis { staged: Seq::empty(), outcome: Ok(Seq::empty()) };
    let empty = ConfigEntry { text: String::new(), staged: Vec::new() };
    proof {
        lemma_boot_entries_step(items, 0, refind_dir@);
        assert(staged_views(empty.staged@) =~= nothing.staged);
        assert(destinations(nothing.staged) =~= Seq::<Seq<char>>::empty());
    }
    let mut entry = match extend_entry(
        empty,
        "Default",
        bootspec,
        timestamp,
        refind_dir,
        file_tracker,
        Ghost(nothing),
        Ghost(start),
    ) {
        Ok(entry) => entry,
        Err(e) => {
            proof {
                lemma_boot_entries_stop(items, 1, refind_dir@);
            }
            return Err(e);
        },
    };
    let mut i: usize = 0;
    while i < bootspec.specialisations.len()
        invariant
            i <= bootspec.specialisations.len(),
            items == nested_items(bootspec@),
            start == old(file_tracker)@,
            file_tracker.well_formed(),
            yields(boot_entries(items.subrange(0, i + 1), refind_dir@), Ok(entry)),
            file_tracker@ == mark_all(
                start,
                destinations(boot_entries(items.subrange(0, i + 1), refind_dir@).staged),
            ),
        decreases bootspec.specialisations.len() - i,
    {
        let ghost done = boot_entries(items.subrange(0, i + 1), refind_dir@);
        proof {
            lemma_boot_entries_step(items, i + 1, refind_dir@);
            assert(items[i + 1] == (
                bootspec.specialisations@[i as int].0@,
                bootspec.specialisations@[i as int].1@,
            ));
        }
        entry = match extend_entry(
            entry,
            bootspec.specialisations[i].0.as_str(),
            &bootspec.specialisations[i].1,
            timestamp,
            refind_dir,
            file_tracker,
            Ghost(done),
            Ghost(start),
        ) {
            Ok(entry) => entry,
            Err(e) => {
                proof {
                    lemma_boot_entries_stop(items, i + 2, refind_dir@);
                }
                return Err(e);
            },
        };
        i += 1;
    }
    assert(items.subrange(0, items.len() as int) == items);
    Ok(entry)
}

/// Writes the menu entry of the generation `generation`, whose
/// specification is `bootspec`: computes [`config_entry`], and marks in
/// `file_tracker` every file that was staged. `bootspec` and its
/// specialisations name their kernels and initial ramdisks by paths with
/// every link resolved. The caller copies the staged files that are not yet
/// in place.
pub fn generate_config_entry(
    bootspec: &BootSpec,
    generation: u64,
    group_name: &str,
    timestamp: &str,
    refind_dir: &str,
    file_tracker: &mut FileTracker,
) -> (r: Result<ConfigEntry, StageError>)
    requires
        old(file_tracker).well_formed(),
    ensures
        final(file_tracker).well_formed(),
        yields(config_entry(bootspec@, generation, group_name@, refind_dir@), r),
        final(file_tracker)@ == mark_all(
            old(file_tracker)@,
            destinations(config_entry(bootspec@, generation, group_name@, refind_dir@).staged),
        ),
{
    let mut title = owned("NixOS ");
    push_text(&mut title, group_name);
    push_text(&mut title, " Generation ");
    push_decimal(&mut title, generation);
    if bootspec.specialisations.len() == 0 {
        return format_boot_entry(
            false,
            bootspec,
            title.as_str(),
            timestamp,
            refind_dir,
            file_tracker,
        );
    }
    let inner = match nested_entries(bootspec, timestamp, refind_dir, file_tracker) {
        Ok(inner) => inner,
        Err(e) => {
            return Err(e);
        },
    };
    let mut text = owned("menuentry \"");
    push_text(&mut text, title.as_str());
    push_text(&mut text, "\" {\n");
    push_text(&mut text, inner.text.as_str());
    push_text(&mut text, "}\n");
    Ok(ConfigEntry { text, staged: inner.staged })
}

} // verus!
