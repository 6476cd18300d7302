//! The boot manager's configuration as one text: a main entry for the
//! default generation, and under it one entry per generation, newest first.

use vstd::prelude::*;
use crate::config::ToolOutput;
use crate::generation::{
    link_name, listed_generations, parse_generations, push_link_name, staged_name, staging,
    CatalogError, StageError, KERNELS_URI, NAMED_PROFILES_DIR, PROFILES_DIR,
};
use crate::path::{file_name, file_name_of, join, join_path, parent, parent_of};
use crate::text::{
    chars_of, decimal, ends_with, has_suffix, lines, lines_of, opt_str_text, opt_text, owned,
    push_char, push_decimal, push_joined, push_text, texts, trim, trim_end, trimmed, trimmed_end,
};

verus! {

/// `s` with every double quote written twice, which is how the boot manager
/// reads a quote inside a quoted string.
pub open spec fn quotes_escaped(s: Seq<char>) -> Seq<char>
    decreases s.len(),
{
    if s.len() == 0 {
        Seq::empty()
    } else if s.last() == '"' {
        quotes_escaped(s.drop_last()).push('"').push('"')
    } else {
        quotes_escaped(s.drop_last()).push(s.last())
    }
}

/// Computes [`quotes_escaped`].
pub fn escape_quotes(s: &str) -> (r: String)
    ensures
        r@ == quotes_escaped(s@),
{
    let v = chars_of(s);
    let mut out = String::new();
    let mut i: usize = 0;
    assert(v@.subrange(0, 0) == Seq::<char>::empty());
    while i < v.len()
        invariant
            i <= v.len(),
            out@ == quotes_escaped(v@.subrange(0, i as int)),
        decreases v.len() - i,
    {
        proof {
            let next = v@.subrange(0, i + 1);
            assert(next.drop_last() == v@.subrange(0, i as int));
            assert(next.last() == v@[i as int]);
        }
        if v[i] == '"' {
            push_char(&mut out, '"');
            push_char(&mut out, '"');
        } else {
            push_char(&mut out, v[i]);
        }
        i += 1;
    }
    assert(v@.subrange(0, v.len() as int) == v@);
    out
}

/// A generation: its profile, where `None` is the system's own, and its
/// number within that profile.
#[derive(Debug, Clone, PartialEq, Eq)]
pub struct Gen {
    pub profile: Option<String>,
    pub number: u32,
}

/// The view of a [`Gen`].
pub struct GenView {
    pub profile: Option<Seq<char>>,
    pub number: u32,
}

impl View for Gen {
    type V = GenView;

    open spec fn view(&self) -> GenView {
        GenView { profile: opt_text(self.profile), number: self.number }
    }
}

impl Gen {
    /// A copy of this generation.
    pub fn duplicate(&self) -> (r: Gen)
        ensures
            r@ == self@,
    {
        let profile = match &self.profile {
            Some(p) => Some(owned(p.as_str())),
            None => None,
        };
        Gen { profile, number: self.number }
    }
}

/// What the menu shows of one generation.
#[derive(Debug, Clone, PartialEq, Eq)]
pub struct GenDetails {
    pub profile: Option<String>,
    pub number: u32,
    pub loader: String,
    pub initrd: String,
    pub kernel_params: String,
    pub description: String,
}

/// The view of a [`GenDetails`].
pub struct DetailsView {
    pub profile: Option<Seq<char>>,
    pub number: u32,
    pub loader: Seq<char>,
    pub initrd: Seq<char>,
    pub kernel_params: Seq<char>,
    pub description: Seq<char>,
}

impl View for GenDetails {
    type V = DetailsView;

    open spec fn view(&self) -> DetailsView {
        DetailsView {
            profile: opt_text(self.profile),
            number: self.number,
            loader: self.loader@,
            initrd: self.initrd@,
            kernel_params: self.kernel_params@,
            description: self.description@,
        }
    }
}

/// The link of generation `number` of `profile`.
pub open spec fn system_link(profile: Option<Seq<char>>, number: u32) -> Seq<char> {
    match profile {
        Some(p) => join(join(PROFILES_DIR@, NAMED_PROFILES_DIR@), link_name(p, number as nat)),
        None => join(PROFILES_DIR@, link_name("system"@, number as nat)),
    }
}

/// Computes [`system_link`].
pub fn system_dir(profile: &Option<String>, number: u32) -> (r: String)
    ensures
        r@ == system_link(opt_text(*profile), number),
{
    let mut name = String::new();
    match profile {
        Some(p) => {
            push_link_name(&mut name, p.as_str(), number as u64);
            assert(Seq::<char>::empty() + link_name(p@, number as nat) == link_name(
                p@,
                number as nat,
            ));
            let dir = join_path(PROFILES_DIR, NAMED_PROFILES_DIR);
            join_path(dir.as_str(), name.as_str())
        },
        None => {
            push_link_name(&mut name, "system", number as u64);
            assert(Seq::<char>::empty() + link_name("system"@, number as nat) == link_name(
                "system"@,
                number as nat,
            ));
            join_path(PROFILES_DIR, name.as_str())
        },
    }
}

/// The link called `name` inside generation `number` of `profile`: the path
/// to read the link from.
pub fn profile_path(profile: &Option<String>, number: u32, name: &str) -> (r: String)
    ensures
        r@ == join(system_link(opt_text(*profile), number), name@),
{
    let dir = system_dir(profile, number);
    join_path(dir.as_str(), name)
}

/// Whether two paths, both with every link resolved, are one path.
pub fn path_eq(a: &str, b: &str) -> (r: bool)
    ensures
        r == (a@ == b@),
{
    crate::text::same_text(a, b)
}

/// The name given to a staged file whose path has no last component.
pub const FALLBACK_FILE_NAME: &'static str = "image";

/// The name given to the store directory of a staged file whose path names
/// none.
pub const FALLBACK_STORE_NAME: &'static str = "store";

/// The last component of `path`, or `fallback` where it has none.
pub open spec fn name_or(path: Option<Seq<char>>, fallback: Seq<char>) -> Seq<char> {
    match path {
        Some(p) => match file_name(p) {
            Some(name) => name,
            None => fallback,
        },
        None => fallback,
    }
}

/// Name of the image that stands for the store file `store_file` on the boot
/// partition: the name of its store directory, a hyphen, and its own name,
/// which is the name under which the file is staged.
pub open spec fn image_name(store_file: Seq<char>) -> Seq<char> {
    name_or(parent(store_file), FALLBACK_STORE_NAME@) + "-"@ + name_or(
        Some(store_file),
        FALLBACK_FILE_NAME@,
    )
}

/// Where the image of `store_file` lies as the boot manager sees it: in the
/// directory of the staged files.
pub open spec fn image_uri(store_file: Seq<char>) -> Seq<char> {
    KERNELS_URI@ + image_name(store_file)
}

/// Where the image of `store_file` lies below the mount point `efi_mount`:
/// what the boot manager sees, less the separator at its start, resolved
/// against the mount point.
pub open spec fn image_path(store_file: Seq<char>, efi_mount: Seq<char>) -> Seq<char> {
    join(efi_mount, image_uri(store_file).subrange(1, image_uri(store_file).len() as int))
}

/// Computes [`name_or`] of `path`.
fn file_name_or(path: &str, fallback: &str) -> (r: String)
    ensures
        r@ == name_or(Some(path@), fallback@),
{
    match file_name_of(path) {
        Some(name) => name,
        None => owned(fallback),
    }
}

/// Maps a file of the store to its image on the boot partition: computes
/// [`image_uri`] and [`image_path`].
pub fn efi_target_for_store(store_file: &str, efi_mount: &str) -> (r: (String, String))
    ensures
        r.0@ == image_uri(store_file@),
        r.1@ == image_path(store_file@, efi_mount@),
{
    let file = file_name_or(store_file, FALLBACK_FILE_NAME);
    let store_dir = match parent_of(store_file) {
        Some(dir) => file_name_or(dir.as_str(), FALLBACK_STORE_NAME),
        None => owned(FALLBACK_STORE_NAME),
    };
    let mut name = String::new();
    push_text(&mut name, store_dir.as_str());
    push_text(&mut name, "-");
    push_text(&mut name, file.as_str());
    assert(name@ == image_name(store_file@));
    let mut rel = owned(KERNELS_URI);
    push_text(&mut rel, name.as_str());
    let mut tail = owned("efi/refind/kernels/");
    push_text(&mut tail, name.as_str());
    proof {
        reveal_strlit("/efi/refind/kernels/");
        reveal_strlit("efi/refind/kernels/");
        assert(tail@ =~= rel@.subrange(1, rel@.len() as int));
    }
    let abs = join_path(efi_mount, tail.as_str());
    (rel, abs)
}

/// Two store files that lie in store directories of one name and have one
/// name themselves have one image, wherever else their paths differ.
pub proof fn lemma_image_by_name(first: Seq<char>, second: Seq<char>, efi_mount: Seq<char>)
    requires
        name_or(parent(first), FALLBACK_STORE_NAME@) == name_or(
            parent(second),
            FALLBACK_STORE_NAME@,
        ),
        name_or(Some(first), FALLBACK_FILE_NAME@) == name_or(Some(second), FALLBACK_FILE_NAME@),
    ensures
        image_uri(first) == image_uri(second),
        image_path(first, efi_mount) == image_path(second, efi_mount),
{
}

/// The menu refers to a store file as the staging of that file does: where
/// the file can be staged, its image is the staged file, in the directory of
/// the staged files and under the staged name.
pub proof fn lemma_image_is_staged(store_file: Seq<char>, refind_dir: Seq<char>)
    requires
        staging(store_file, refind_dir) is Ok,
    ensures
        staged_name(store_file) == Ok::<Seq<char>, StageError>(image_name(store_file)),
        image_uri(store_file) == staging(store_file, refind_dir)->Ok_0.uri,
        image_uri(store_file) == "/efi/refind/kernels/"@ + image_name(store_file),
{
}

/// `n` spaces.
pub open spec fn spaces(n: nat) -> Seq<char> {
    Seq::new(n, |i: int| ' ')
}

/// Each of `lines` with `pad` before it.
pub open spec fn padded(lines: Seq<Seq<char>>, pad: Seq<char>) -> Seq<Seq<char>> {
    Seq::new(lines.len(), |i: int| pad + lines[i])
}

/// The lines of `s`, each after `n` spaces, with a line feed between any
/// two.
pub open spec fn indented(s: Seq<char>, n: nat) -> Seq<char> {
    crate::text::join(padded(lines(s), spaces(n)), "\n"@)
}

/// Computes [`indented`].
pub fn indent(s: &str, n: usize) -> (r: String)
    ensures
        r@ == indented(s@, n as nat),
{
    let mut pad = String::new();
    let mut k: usize = 0;
    while k < n
        invariant
            k <= n,
            pad@ == spaces(k as nat),
        decreases n - k,
    {
        push_char(&mut pad, ' ');
        assert(pad@ =~= spaces((k + 1) as nat));
        k += 1;
    }
    let all = lines_of(s);
    let mut out: Vec<String> = Vec::new();
    let mut i: usize = 0;
    while i < all.len()
        invariant
            i <= all.len(),
            texts(out@) == padded(texts(all@), pad@).subrange(0, i as int),
        decreases all.len() - i,
    {
        let mut line = owned(pad.as_str());
        push_text(&mut line, all[i].as_str());
        let ghost before = texts(out@);
        out.push(line);
        assert(texts(out@) =~= before.push(pad@ + all@[i as int]@));
        assert(texts(out@) =~= padded(texts(all@), pad@).subrange(0, i + 1));
        i += 1;
    }
    assert(padded(texts(all@), pad@).subrange(0, all.len() as int) == padded(texts(all@), pad@));
    let mut r = String::new();
    push_joined(&mut r, &out, "\n");
    assert(Seq::<char>::empty() + indented(s@, n as nat) == indented(s@, n as nat));
    r
}

/// The three lines that every entry holds: the loader, the initial ramdisk
/// and the options, the last between quotes, trimmed, each quote inside them
/// doubled.
pub open spec fn entry_body(d: DetailsView) -> Seq<char> {
    "    loader "@ + d.loader + "\n    initrd "@ + d.initrd + "\n    options \""@ + quotes_escaped(
        trim(d.kernel_params),
    ) + "\"\n"@
}

/// Appends [`entry_body`] of `d` to `out`.
fn push_entry_body(out: &mut String, d: &GenDetails)
    ensures
        final(out)@ == old(out)@ + entry_body(d@),
{
    push_text(out, "    loader ");
    push_text(out, d.loader.as_str());
    push_text(out, "\n    initrd ");
    push_text(out, d.initrd.as_str());
    push_text(out, "\n    options \"");
    let params = trimmed(d.kernel_params.as_str());
    let escaped = escape_quotes(params.as_str());
    push_text(out, escaped.as_str());
    push_text(out, "\"\n");
    assert(final(out)@ =~= old(out)@ + entry_body(d@));
}

/// The entry of one generation in the list of all generations.
pub open spec fn submenu_text(d: DetailsView) -> Seq<char> {
    "\nsubmenuentry \"Generation "@ + decimal(d.number as nat) + " "@ + d.description + "\" {\n"@
        + entry_body(d) + "}\n"@
}

/// Computes [`submenu_text`].
pub fn submenu_entry(d: &GenDetails) -> (r: String)
    ensures
        r@ == submenu_text(d@),
{
    let mut r = owned("\nsubmenuentry \"Generation ");
    push_decimal(&mut r, d.number as u64);
    push_text(&mut r, " ");
    push_text(&mut r, d.description.as_str());
    push_text(&mut r, "\" {\n");
    push_entry_body(&mut r, d);
    push_text(&mut r, "}\n");
    r
}

/// The main entry: it boots `main`, and holds `submenu_entries`, without the
/// white space at their end and four spaces in, as its submenu.
pub open spec fn menu_text(main: DetailsView, submenu_entries: Seq<char>) -> Seq<char> {
    "\nmenuentry \"NixOS\" {\n"@ + entry_body(main) + indented(trim_end(submenu_entries), 4) + "}\n"@
}

/// Computes [`menu_text`].
pub fn menu_entry(main: &GenDetails, submenu_entries: &str) -> (r: String)
    ensures
        r@ == menu_text(main@, submenu_entries@),
{
    let mut r = owned("\nmenuentry \"NixOS\" {\n");
    push_entry_body(&mut r, main);
    let trimmed_entries = trimmed_end(submenu_entries);
    let inner = indent(trimmed_entries.as_str(), 4);
    push_text(&mut r, inner.as_str());
    push_text(&mut r, "}\n");
    r
}

/// `s`, and a line feed after it unless it ends with one.
pub open spec fn line_ended(s: Seq<char>) -> Seq<char> {
    if s.len() > 0 && s.last() == '\n' {
        s
    } else {
        s.push('\n')
    }
}

/// The whole configuration: the timeout where one is given, then the extra
/// configuration as it is where one is given, after which a line ends, then
/// the main entry.
pub open spec fn config_text(
    timeout: Option<u32>,
    extra_config: Option<Seq<char>>,
    main: DetailsView,
    submenu: Seq<char>,
) -> Seq<char> {
    let head = match timeout {
        Some(secs) => "timeout "@ + decimal(secs as nat) + "\n"@,
        None => Seq::empty(),
    };
    let preamble = match extra_config {
        Some(extra) => line_ended(head + extra),
        None => head,
    };
    preamble + menu_text(main, submenu)
}

/// Computes [`config_text`]. `extra_config` is the content of the file of
/// extra configuration.
pub fn build_config_text(
    timeout: Option<u32>,
    extra_config: Option<&str>,
    main_details: &GenDetails,
    submenu: &str,
) -> (r: String)
    ensures
        r@ == config_text(
            timeout,
            match extra_config {
                Some(extra) => Some(extra@),
                None => None,
            },
            main_details@,
            submenu@,
        ),
{
    let mut out = String::new();
    match timeout {
        Some(secs) => {
            push_text(&mut out, "timeout ");
            push_decimal(&mut out, secs as u64);
            push_text(&mut out, "\n");
            assert(out@ =~= "timeout "@ + decimal(secs as nat) + "\n"@);
        },
        None => {},
    }
    match extra_config {
        Some(extra) => {
            push_text(&mut out, extra);
            let ghost so_far = out@;
            if !has_suffix(out.as_str(), "\n") {
                push_char(&mut out, '\n');
            }
            proof {
                reveal_strlit("\n");
                if so_far.len() > 0 {
                    assert(so_far.subrange(so_far.len() - 1, so_far.len() as int) =~= seq![
                        so_far.last(),
                    ]);
                    assert("\n"@ =~= seq!['\n']);
                    assert(ends_with(so_far, "\n"@) <==> so_far.last() == '\n') by {
                        if ends_with(so_far, "\n"@) {
                            assert(seq![so_far.last()][0] == seq!['\n'][0]);
                        }
                    }
                }
                assert(out@ == line_ended(so_far));
            }
        },
        None => {},
    }
    let entry = menu_entry(main_details, submenu);
    push_text(&mut out, entry.as_str());
    out
}

/// The profile whose generations the lister is asked for.
pub open spec fn lister_profile(profile: Option<Seq<char>>) -> Seq<char> {
    match profile {
        Some(p) => "/nix/var/nix/profiles/system-profiles/"@ + p,
        None => "/nix/var/nix/profiles/system"@,
    }
}

/// The program and arguments that list the generations of `profile`.
pub open spec fn lister_command(profile: Option<Seq<char>>) -> Seq<Seq<char>> {
    seq!["sudo"@, "nix-env"@, "--list-generations"@, "-p"@, lister_profile(profile)]
}

/// Computes [`lister_command`].
pub fn generation_lister_command(profile: Option<&str>) -> (r: Vec<String>)
    ensures
        texts(r@) == lister_command(opt_str_text(profile)),
{
    let path = match profile {
        Some(p) => {
            let mut path = owned("/nix/var/nix/profiles/system-profiles/");
            push_text(&mut path, p);
            path
        },
        None => owned("/nix/var/nix/profiles/system"),
    };
    let mut r: Vec<String> = Vec::new();
    r.push(owned("sudo"));
    r.push(owned("nix-env"));
    r.push(owned("--list-generations"));
    r.push(owned("-p"));
    r.push(path);
    assert(texts(r@) =~= lister_command(opt_str_text(profile)));
    r
}

/// The generations of `profile` among `numbers`: those that fit 32 bits, in
/// order.
pub open spec fn generations_of(profile: Option<Seq<char>>, numbers: Seq<u64>) -> Seq<GenView>
    decreases numbers.len(),
{
    if numbers.len() == 0 {
        Seq::empty()
    } else if numbers.last() <= u32::MAX {
        generations_of(profile, numbers.drop_last()).push(
            GenView { profile, number: numbers.last() as u32 },
        )
    } else {
        generations_of(profile, numbers.drop_last())
    }
}

/// The views of a list of generations.
pub open spec fn gen_views(v: Seq<Gen>) -> Seq<GenView> {
    Seq::new(v.len(), |i: int| v[i]@)
}

/// All generations of `profile`, oldest first: those that the lister's
/// output names. A lister that failed gives an error.
pub fn get_generations(profile: Option<&str>, listing: &ToolOutput) -> (r: Result<
    Vec<Gen>,
    CatalogError,
>)
    ensures
        match r {
            Ok(gens) => listing.success && gen_views(gens@) == generations_of(
                opt_str_text(profile),
                listed_generations(lines(listing.stdout@)),
            ),
            Err(e) => !listing.success && e == CatalogError::ListerFailed,
        },
{
    if !listing.success {
        return Err(CatalogError::ListerFailed);
    }
    let numbers = parse_generations(listing.stdout.as_str());
    let mut gens: Vec<Gen> = Vec::new();
    let mut i: usize = 0;
    assert(numbers@.subrange(0, 0) == Seq::<u64>::empty());
    assert(gen_views(gens@) =~= Seq::<GenView>::empty());
    while i < numbers.len()
        invariant
            i <= numbers.len(),
            gen_views(gens@) == generations_of(
                opt_str_text(profile),
                numbers@.subrange(0, i as int),
            ),
        decreases numbers.len() - i,
    {
        proof {
            let next = numbers@.subrange(0, i + 1);
            assert(next.drop_last() == numbers@.subrange(0, i as int));
            assert(next.last() == numbers@[i as int]);
        }
        let ghost before = gen_views(gens@);
        if numbers[i] <= u32::MAX as u64 {
            let owner = match profile {
                Some(p) => Some(owned(p)),
                None => None,
            };
            let generation = Gen { profile: owner, number: numbers[i] as u32 };
            gens.push(generation);
            assert(gen_views(gens@) =~= before.push(
                GenView { profile: opt_str_text(profile), number: numbers@[i as int] as u32 },
            ));
        }
        i += 1;
    }
    assert(numbers@.subrange(0, numbers.len() as int) == numbers@);
    Ok(gens)
}

/// The links that can name the system in use, in the order in which they
/// are asked: the system profile's own link, then the link of the running
/// system.
pub fn default_target_candidates() -> (r: Vec<String>)
    ensures
        texts(r@) == seq!["/nix/var/nix/profiles/system"@, "/run/current-system"@],
{
    let mut r: Vec<String> = Vec::new();
    r.push(owned("/nix/var/nix/profiles/system"));
    r.push(owned("/run/current-system"));
    assert(texts(r@) =~= seq!["/nix/var/nix/profiles/system"@, "/run/current-system"@]);
    r
}

/// The first of `targets` that is there.
pub open spec fn first_resolved(targets: Seq<Option<Seq<char>>>) -> Option<Seq<char>>
    decreases targets.len(),
{
    if targets.len() == 0 {
        None
    } else {
        match targets[0] {
            Some(t) => Some(t),
            None => first_resolved(targets.subrange(1, targets.len() as int)),
        }
    }
}

/// The views of a list of optional strings.
pub open spec fn opt_texts(v: Seq<Option<String>>) -> Seq<Option<Seq<char>>> {
    Seq::new(v.len(), |i: int| opt_text(v[i]))
}

/// Where the system in use points: the target of the first link of
/// [`default_target_candidates`] that could be read. `targets` holds, for
/// each of those links in order, its target, or `None` if it could not be
/// read.
pub fn discover_default_target(targets: &Vec<Option<String>>) -> (r: Option<String>)
    ensures
        opt_text(r) == first_resolved(opt_texts(targets@)),
{
    let mut i: usize = 0;
    assert(opt_texts(targets@).subrange(0, targets.len() as int) == opt_texts(targets@));
    while i < targets.len()
        invariant
            i <= targets.len(),
            first_resolved(opt_texts(targets@)) == first_resolved(
                opt_texts(targets@).subrange(i as int, targets.len() as int),
            ),
        decreases targets.len() - i,
    {
        let ghost rest = opt_texts(targets@).subrange(i as int, targets.len() as int);
        proof {
            assert(rest[0] == opt_text(targets@[i as int]));
            assert(rest.subrange(1, rest.len() as int) == opt_texts(targets@).subrange(
                i + 1,
                targets.len() as int,
            ));
        }
        match &targets[i] {
            Some(t) => {
                return Some(owned(t.as_str()));
            },
            None => {},
        }
        i += 1;
    }
    None
}

/// Index of the newest of `numbers`: the greatest, and of several equal the
/// last.
pub open spec fn newest_at(numbers: Seq<u32>) -> int
    decreases numbers.len(),
{
    if numbers.len() <= 1 {
        0
    } else {
        let before = newest_at(numbers.drop_last());
        if numbers.last() >= numbers[before] {
            numbers.len() - 1
        } else {
            before
        }
    }
}

/// [`newest_at`] is an index of the greatest number, and no later index
/// holds a number as great.
pub proof fn lemma_newest_at(numbers: Seq<u32>)
    requires
        numbers.len() > 0,
    ensures
        0 <= newest_at(numbers) < numbers.len(),
        forall|i: int|
            0 <= i < numbers.len() ==> #[trigger] numbers[i] <= numbers[newest_at(numbers)],
        forall|i: int|
            newest_at(numbers) < i < numbers.len() ==> #[trigger] numbers[i] < numbers[newest_at(
                numbers,
            )],
    decreases numbers.len(),
{
    if numbers.len() > 1 {
        let head = numbers.drop_last();
        lemma_newest_at(head);
        assert forall|i: int| 0 <= i < numbers.len() implies #[trigger] numbers[i]
            <= numbers[newest_at(numbers)] by {
            if i < head.len() {
                assert(head[i] == numbers[i]);
            }
        }
        assert forall|i: int| newest_at(numbers) < i < numbers.len() implies #[trigger] numbers[i]
            < numbers[newest_at(numbers)] by {
            if i < head.len() {
                assert(head[i] == numbers[i]);
            }
        }
    }
}

/// The numbers of a list of generations.
pub open spec fn numbers_of(gens: Seq<GenView>) -> Seq<u32> {
    Seq::new(gens.len(), |i: int| gens[i].number)
}

/// Computes [`newest_at`].
fn newest_index(numbers: &Vec<u32>) -> (r: usize)
    requires
        numbers.len() > 0,
    ensures
        r == newest_at(numbers@),
        r < numbers.len(),
{
    let mut best: usize = 0;
    let mut i: usize = 1;
    assert(numbers@.subrange(0, 1).len() == 1);
    while i < numbers.len()
        invariant
            1 <= i <= numbers.len(),
            best < i,
            best == newest_at(numbers@.subrange(0, i as int)),
        decreases numbers.len() - i,
    {
        proof {
            let next = numbers@.subrange(0, i + 1);
            assert(next.drop_last() == numbers@.subrange(0, i as int));
            assert(next.last() == numbers@[i as int]);
            assert(next[best as int] == numbers@[best as int]);
        }
        if numbers[i] >= numbers[best] {
            best = i;
        }
        i += 1;
    }
    assert(numbers@.subrange(0, numbers.len() as int) == numbers@);
    best
}

/// The numbers of `gens`.
fn collect_numbers(gens: &Vec<Gen>) -> (r: Vec<u32>)
    ensures
        r@ == numbers_of(gen_views(gens@)),
{
    let mut r: Vec<u32> = Vec::new();
    let mut i: usize = 0;
    while i < gens.len()
        invariant
            i <= gens.len(),
            r@ == numbers_of(gen_views(gens@)).subrange(0, i as int),
        decreases gens.len() - i,
    {
        r.push(gens[i].number);
        assert(r@ =~= numbers_of(gen_views(gens@)).subrange(0, i + 1));
        i += 1;
    }
    assert(numbers_of(gen_views(gens@)).subrange(0, gens.len() as int) == numbers_of(
        gen_views(gens@),
    ));
    r
}

/// The newest of `gens`: the one with the greatest number, and of several
/// with that number the last.
pub fn newest_generation(gens: &Vec<Gen>) -> (r: Gen)
    requires
        gens.len() > 0,
    ensures
        r@ == gens@[newest_at(numbers_of(gen_views(gens@)))]@,
{
    let numbers = collect_numbers(gens);
    let at = newest_index(&numbers);
    gens[at].duplicate()
}

/// Index of the first of `targets` that is `target`.
pub open spec fn first_at(targets: Seq<Seq<char>>, target: Seq<char>) -> Option<int>
    decreases targets.len(),
{
    if targets.len() == 0 {
        None
    } else {
        match first_at(targets.drop_last(), target) {
            Some(i) => Some(i),
            None => if targets.last() == target {
                Some(targets.len() - 1)
            } else {
                None
            },
        }
    }
}

/// [`first_at`] finds an index that holds `target` and has none before it
/// that does, and finds one whenever there is one.
pub proof fn lemma_first_at(targets: Seq<Seq<char>>, target: Seq<char>)
    ensures
        match first_at(targets, target) {
            Some(i) => 0 <= i < targets.len() && targets[i] == target && forall|k: int|
                0 <= k < i ==> targets[k] != target,
            None => forall|k: int| 0 <= k < targets.len() ==> targets[k] != target,
        },
    decreases targets.len(),
{
    if targets.len() > 0 {
        let head = targets.drop_last();
        lemma_first_at(head, target);
        match first_at(head, target) {
            Some(i) => {
                assert(head[i] == targets[i]);
                assert forall|k: int| 0 <= k < i implies targets[k] != target by {
                    assert(head[k] == targets[k]);
                }
            },
            None => {
                assert forall|k: int| 0 <= k < targets.len() - 1 implies targets[k] != target by {
                    assert(head[k] == targets[k]);
                }
            },
        }
    }
}

/// Computes [`first_at`].
fn first_index(targets: &Vec<String>, target: &str) -> (r: Option<usize>)
    ensures
        match r {
            Some(i) => first_at(texts(targets@), target@) == Some(i as int) && i < targets.len(),
            None => first_at(texts(targets@), target@) is None,
        },
{
    let mut i: usize = 0;
    assert(texts(targets@).subrange(0, 0).len() == 0);
    while i < targets.len()
        invariant
            i <= targets.len(),
            first_at(texts(targets@).subrange(0, i as int), target@) is None,
        decreases targets.len() - i,
    {
        proof {
            let next = texts(targets@).subrange(0, i + 1);
            assert(next.drop_last() == texts(targets@).subrange(0, i as int));
            assert(next.last() == targets@[i as int]@);
        }
        if path_eq(targets[i].as_str(), target) {
            proof {
                lemma_first_at_kept(texts(targets@), i + 1, target@);
            }
            return Some(i);
        }
        i += 1;
    }
    assert(texts(targets@).subrange(0, targets.len() as int) == texts(targets@));
    None
}

/// What [`first_at`] finds among the first `k` of `targets`, it finds among
/// all of them.
pub proof fn lemma_first_at_kept(targets: Seq<Seq<char>>, k: int, target: Seq<char>)
    requires
        0 <= k <= targets.len(),
        first_at(targets.subrange(0, k), target) is Some,
    ensures
        first_at(targets, target) == first_at(targets.subrange(0, k), target),
    decreases targets.len() - k,
{
    if k < targets.len() {
        let next = targets.subrange(0, k + 1);
        assert(next.drop_last() == targets.subrange(0, k));
        lemma_first_at_kept(targets, k + 1, target);
    } else {
        assert(targets.subrange(0, k) == targets);
    }
}

/// The link targets of a list of generations that come with them.
pub open spec fn targets_of(gens: Seq<(Gen, String)>) -> Seq<Seq<char>> {
    Seq::new(gens.len(), |i: int| gens[i].1@)
}

/// The generation whose link points at `target`: the first of `gens`, each
/// with the target of its link, whose target is `target`. All targets have
/// every link resolved.
pub fn find_generation_by_target(gens: &Vec<(Gen, String)>, target: &str) -> (r: Option<Gen>)
    ensures
        match first_at(targets_of(gens@), target@) {
            Some(i) => r matches Some(g) && g@ == gens@[i].0@,
            None => r is None,
        },
{
    let mut targets: Vec<String> = Vec::new();
    let mut i: usize = 0;
    while i < gens.len()
        invariant
            i <= gens.len(),
            texts(targets@) == targets_of(gens@).subrange(0, i as int),
        decreases gens.len() - i,
    {
        let ghost before = texts(targets@);
        targets.push(owned(gens[i].1.as_str()));
        assert(texts(targets@) =~= before.push(gens@[i as int].1@));
        assert(texts(targets@) =~= targets_of(gens@).subrange(0, i + 1));
        i += 1;
    }
    assert(targets_of(gens@).subrange(0, gens.len() as int) == targets_of(gens@));
    match first_index(&targets, target) {
        Some(i) => Some(gens[i].0.duplicate()),
        None => None,
    }
}

/// The date, in universal time, of the moment `secs` seconds after the start
/// of 1970, written as year, month and day with hyphens between them, as
/// `chrono` writes a `NaiveDate`; `None` for a moment that `chrono` cannot
/// hold.
pub uninterp spec fn utc_date(secs: i64) -> Option<Seq<char>>;

/// Asks `chrono` for the date of a moment: `NaiveDateTime::from_timestamp_opt`
/// with no nanoseconds, then the date part, written out by its `Display`.
/// The contract only names the outcome.
#[verifier::external_body]
#[allow(deprecated)]
fn date_of_timestamp(secs: i64) -> (r: Option<String>)
    ensures
        opt_text(r) == utc_date(secs),
{
    chrono::NaiveDateTime::from_timestamp_opt(secs, 0).map(|moment| moment.date().to_string())
}

/// `text`, or `fallback` where there is none.
pub open spec fn text_or(text: Option<Seq<char>>, fallback: Seq<char>) -> Seq<char> {
    match text {
        Some(t) => t,
        None => fallback,
    }
}

/// One line about a generation: the system's version, trimmed, the
/// kernel's version and the day it was built, each replaced by a word that
/// says so where it is not known.
pub open spec fn description(
    nixos_version: Option<Seq<char>>,
    kernel_version: Option<Seq<char>>,
    date: Option<Seq<char>>,
) -> Seq<char> {
    "NixOS "@ + trim(text_or(nixos_version, "Unknown"@)) + ", Linux Kernel "@ + text_or(
        kernel_version,
        "unknown"@,
    ) + ", Built on "@ + text_or(date, "unknown-date"@)
}

/// Computes [`description`] from a date that is already written out.
pub fn describe_with_date(
    nixos_version: Option<&str>,
    kernel_version: Option<&str>,
    date: Option<&str>,
) -> (r: String)
    ensures
        r@ == description(
            opt_str_text(nixos_version),
            opt_str_text(kernel_version),
            opt_str_text(date),
        ),
{
    let mut r = owned("NixOS ");
    let version = trimmed(
        match nixos_version {
            Some(v) => v,
            None => "Unknown",
        },
    );
    push_text(&mut r, version.as_str());
    push_text(&mut r, ", Linux Kernel ");
    push_text(
        &mut r,
        match kernel_version {
            Some(v) => v,
            None => "unknown",
        },
    );
    push_text(&mut r, ", Built on ");
    push_text(
        &mut r,
        match date {
            Some(d) => d,
            None => "unknown-date",
        },
    );
    r
}

/// Describes a generation: computes [`description`] for the day on which
/// the generation's directory was last changed, `changed` seconds after the
/// start of 1970. `nixos_version` is the content of the generation's version
/// file and `kernel_version` the name of the first directory of kernel
/// modules, each `None` where it could not be read.
pub fn describe_generation(
    nixos_version: Option<&str>,
    kernel_version: Option<&str>,
    changed: i64,
) -> (r: String)
    ensures
        r@ == description(
            opt_str_text(nixos_version),
            opt_str_text(kernel_version),
            utc_date(changed),
        ),
{
    match date_of_timestamp(changed) {
        Some(date) => describe_with_date(nixos_version, kernel_version, Some(date.as_str())),
        None => describe_with_date(nixos_version, kernel_version, None),
    }
}

/// The directory that holds the modules of the kernel at `kernel`, a path
/// with every link resolved: `lib/modules` beside the kernel.
pub fn modules_dir(kernel: &str) -> (r: String)
    ensures
        r@ == join(text_or(parent(kernel@), kernel@), "lib/modules"@),
{
    match parent_of(kernel) {
        Some(dir) => join_path(dir.as_str(), "lib/modules"),
        None => join_path(kernel, "lib/modules"),
    }
}

/// What the file system says of one generation.
#[derive(Debug, PartialEq, Eq)]
pub struct GenerationFacts {
    /// The generation's directory: the target of its link, or the link
    /// itself where it could not be read.
    pub gen_dir: String,
    /// The generation's directory with every link resolved, or as it is
    /// where that could not be done.
    pub resolved_dir: String,
    /// The target of the link called `kernel` in the generation.
    pub kernel: String,
    /// The target of the link called `initrd` in the generation.
    pub initrd: String,
    /// The content of the generation's file of kernel parameters, where it
    /// could be read.
    pub kernel_params: Option<String>,
    /// The content of the generation's version file, where it could be read.
    pub nixos_version: Option<String>,
    /// The name of the first directory of kernel modules, where one was
    /// found.
    pub kernel_version: Option<String>,
    /// When the generation's directory was last changed, in seconds since
    /// the start of 1970, where that could be asked.
    pub changed: Option<i64>,
}

/// The view of a [`GenerationFacts`].
pub struct FactsView {
    pub gen_dir: Seq<char>,
    pub resolved_dir: Seq<char>,
    pub kernel: Seq<char>,
    pub initrd: Seq<char>,
    pub kernel_params: Option<Seq<char>>,
    pub nixos_version: Option<Seq<char>>,
    pub kernel_version: Option<Seq<char>>,
    pub changed: Option<i64>,
}

impl View for GenerationFacts {
    type V = FactsView;

    open spec fn view(&self) -> FactsView {
        FactsView {
            gen_dir: self.gen_dir@,
            resolved_dir: self.resolved_dir@,
            kernel: self.kernel@,
            initrd: self.initrd@,
            kernel_params: opt_text(self.kernel_params),
            nixos_version: opt_text(self.nixos_version),
            kernel_version: opt_text(self.kernel_version),
            changed: self.changed,
        }
    }
}

/// What the menu shows of the generation `g`, of which the file system says
/// `facts`: the images of its kernel and initial ramdisk, the kernel's
/// command line, which names the generation's directory as the system and
/// the init program inside it before the generation's own parameters, and its
/// description.
pub open spec fn details(g: GenView, facts: FactsView) -> DetailsView {
    DetailsView {
        profile: g.profile,
        number: g.number,
        loader: image_uri(facts.kernel),
        initrd: image_uri(facts.initrd),
        kernel_params: "systemConfig="@ + facts.gen_dir + " init="@ + facts.gen_dir + "/init "@
            + text_or(facts.kernel_params, Seq::empty()),
        description: match facts.changed {
            Some(changed) => description(
                facts.nixos_version,
                facts.kernel_version,
                utc_date(changed),
            ),
            None => "Unknown"@,
        },
    }
}

/// Computes [`details`]. Nothing is copied: `efi_mount` only says where the
/// images would lie.
pub fn generation_details(g: &Gen, efi_mount: &str, facts: &GenerationFacts) -> (r: GenDetails)
    ensures
        r@ == details(g@, facts@),
{
    let (loader, _loader_path) = efi_target_for_store(facts.kernel.as_str(), efi_mount);
    let (initrd, _initrd_path) = efi_target_for_store(facts.initrd.as_str(), efi_mount);
    let mut kernel_params = owned("systemConfig=");
    push_text(&mut kernel_params, facts.gen_dir.as_str());
    push_text(&mut kernel_params, " init=");
    push_text(&mut kernel_params, facts.gen_dir.as_str());
    push_text(&mut kernel_params, "/init ");
    match &facts.kernel_params {
        Some(params) => {
            push_text(&mut kernel_params, params.as_str());
        },
        None => {
            assert(kernel_params@ + Seq::<char>::empty() == kernel_params@);
        },
    }
    let description = match facts.changed {
        Some(changed) => describe_generation(
            match &facts.nixos_version {
                Some(v) => Some(v.as_str()),
                None => None,
            },
            match &facts.kernel_version {
                Some(v) => Some(v.as_str()),
                None => None,
            },
            changed,
        ),
        None => owned("Unknown"),
    };
    let copy = g.duplicate();
    GenDetails {
        profile: copy.profile,
        number: g.number,
        loader,
        initrd,
        kernel_params,
        description,
    }
}

/// How many of the indices at the start of `order` hold a number that is at
/// least `x`.
pub open spec fn rank(numbers: Seq<u32>, order: Seq<usize>, x: u32) -> nat
    decreases order.len(),
{
    if order.len() > 0 && numbers[order[0] as int] >= x {
        1 + rank(numbers, order.subrange(1, order.len() as int), x)
    } else {
        0
    }
}

/// The indices of the first `k` of `numbers`, from the greatest number to
/// the least, those of equal numbers in their own order: each index is put
/// behind the indices of all numbers that are at least as great.
pub open spec fn newest_first_of(numbers: Seq<u32>, k: nat) -> Seq<usize>
    decreases k,
{
    if k == 0 {
        Seq::empty()
    } else {
        let before = newest_first_of(numbers, (k - 1) as nat);
        before.insert(rank(numbers, before, numbers[k - 1]) as int, (k - 1) as usize)
    }
}

/// The indices of `numbers` from the greatest number to the least, those of
/// equal numbers in their own order.
pub open spec fn newest_first(numbers: Seq<u32>) -> Seq<usize> {
    newest_first_of(numbers, numbers.len())
}

/// Whether `order` holds the index `j`.
pub open spec fn places(order: Seq<usize>, j: int) -> bool {
    exists|a: int| 0 <= a < order.len() && #[trigger] order[a] == j
}

/// What [`rank`] counts: it stays within `order`, every index before it
/// holds a number that is at least `x`, and the index at it, if any, holds a
/// lesser one.
pub proof fn lemma_rank(numbers: Seq<u32>, order: Seq<usize>, x: u32)
    ensures
        rank(numbers, order, x) <= order.len(),
        forall|i: int|
            0 <= i < rank(numbers, order, x) ==> numbers[(#[trigger] order[i]) as int] >= x,
        rank(numbers, order, x) < order.len() ==> numbers[order[rank(numbers, order, x) as int] as int]
            < x,
    decreases order.len(),
{
    if order.len() > 0 && numbers[order[0] as int] >= x {
        let rest = order.subrange(1, order.len() as int);
        lemma_rank(numbers, rest, x);
        assert forall|i: int| 0 <= i < rank(numbers, order, x) implies numbers[(
        #[trigger] order[i]) as int] >= x by {
            if i > 0 {
                assert(order[i] == rest[i - 1]);
            }
        }
        if rank(numbers, order, x) < order.len() {
            assert(order[rank(numbers, order, x) as int] == rest[rank(numbers, rest, x) as int]);
        }
    }
}

/// A count that has what [`lemma_rank`] states is the rank.
pub proof fn lemma_rank_is(numbers: Seq<u32>, order: Seq<usize>, x: u32, n: int)
    requires
        0 <= n <= order.len(),
        forall|i: int| 0 <= i < n ==> numbers[(#[trigger] order[i]) as int] >= x,
        n < order.len() ==> numbers[order[n] as int] < x,
    ensures
        rank(numbers, order, x) == n,
    decreases order.len(),
{
    if n > 0 {
        let rest = order.subrange(1, order.len() as int);
        assert(numbers[order[0] as int] >= x);
        assert forall|i: int| 0 <= i < n - 1 implies numbers[(#[trigger] rest[i]) as int] >= x by {
            assert(rest[i] == order[i + 1]);
        }
        if n - 1 < rest.len() {
            assert(rest[n - 1] == order[n]);
        }
        lemma_rank_is(numbers, rest, x, n - 1);
    }
}

/// [`newest_first_of`] orders the first `k` indices: it holds each of them
/// once, no number comes before a greater one, and of two equal numbers the
/// one with the lesser index comes first.
pub proof fn lemma_newest_first(numbers: Seq<u32>, k: nat)
    requires
        k <= numbers.len() <= usize::MAX,
    ensures
        newest_first_of(numbers, k).len() == k,
        forall|a: int| 0 <= a < k ==> (#[trigger] newest_first_of(numbers, k)[a]) < k,
        forall|j: int| 0 <= j < k ==> #[trigger] places(newest_first_of(numbers, k), j),
        forall|a: int, b: int|
            0 <= a < b < k ==> numbers[(#[trigger] newest_first_of(numbers, k)[a]) as int]
                >= numbers[(#[trigger] newest_first_of(numbers, k)[b]) as int],
        forall|a: int, b: int|
            0 <= a < b < k && numbers[(#[trigger] newest_first_of(numbers, k)[a]) as int]
                == numbers[(#[trigger] newest_first_of(numbers, k)[b]) as int] ==> newest_first_of(
                numbers,
                k,
            )[a] < newest_first_of(numbers, k)[b],
    decreases k,
{
    if k > 0 {
        let before = newest_first_of(numbers, (k - 1) as nat);
        let x = numbers[k - 1];
        let p = rank(numbers, before, x) as int;
        let order = newest_first_of(numbers, k);
        lemma_newest_first(numbers, (k - 1) as nat);
        lemma_rank(numbers, before, x);
        before.insert_ensures(p, (k - 1) as usize);
        assert forall|a: int| 0 <= a < k implies (#[trigger] order[a]) < k by {
            if a < p {
                assert(order[a] == before[a]);
            } else if a > p {
                assert(order[(a - 1) + 1] == before[a - 1]);
            }
        }
        assert forall|j: int| 0 <= j < k implies #[trigger] places(order, j) by {
            if j == k - 1 {
                assert(order[p] == j);
            } else {
                assert(places(before, j));
                let a = choose|a: int| 0 <= a < before.len() && #[trigger] before[a] == j;
                if a < p {
                    assert(order[a] == j);
                } else {
                    assert(order[a + 1] == before[a]);
                }
            }
        }
        assert forall|a: int| p < a < k implies numbers[(#[trigger] order[a]) as int] < x by {
            assert(order[(a - 1) + 1] == before[a - 1]);
            if a - 1 > p {
                assert(numbers[before[p] as int] >= numbers[before[a - 1] as int]);
            }
        }
        assert forall|a: int| 0 <= a < p implies numbers[(#[trigger] order[a]) as int] >= x by {
            assert(order[a] == before[a]);
        }
        assert forall|a: int, b: int| 0 <= a < b < k implies numbers[(#[trigger] order[a]) as int]
            >= numbers[(#[trigger] order[b]) as int] by {
            if a != p && b != p {
                let a0 = if a < p {
                    a
                } else {
                    a - 1
                };
                let b0 = if b < p {
                    b
                } else {
                    b - 1
                };
                assert(order[a] == before[a0]) by {
                    if a > p {
                        assert(order[(a - 1) + 1] == before[a - 1]);
                    }
                }
                assert(order[b] == before[b0]) by {
                    if b > p {
                        assert(order[(b - 1) + 1] == before[b - 1]);
                    }
                }
                assert(numbers[before[a0] as int] >= numbers[before[b0] as int]);
            }
        }
        assert forall|a: int, b: int|
            0 <= a < b < k && numbers[(#[trigger] order[a]) as int] == numbers[(
            #[trigger] order[b]) as int] implies order[a] < order[b] by {
            if a != p && b != p {
                let a0 = if a < p {
                    a
                } else {
                    a - 1
                };
                let b0 = if b < p {
                    b
                } else {
                    b - 1
                };
                assert(order[a] == before[a0]) by {
                    if a > p {
                        assert(order[(a - 1) + 1] == before[a - 1]);
                    }
                }
                assert(order[b] == before[b0]) by {
                    if b > p {
                        assert(order[(b - 1) + 1] == before[b - 1]);
                    }
                }
                assert(before[a0] < before[b0]);
            } else if b == p {
                assert(order[a] == before[a]);
                assert(before[a] < k - 1);
            }
        }
    }
}

/// Whether the index `i` comes before the index `j` in the menu: it holds
/// the greater number, or the same number and is the lesser index.
pub open spec fn comes_before(numbers: Seq<u32>, i: usize, j: usize) -> bool {
    numbers[i as int] > numbers[j as int] || (numbers[i as int] == numbers[j as int] && i < j)
}

/// Whether `order` holds each index of `numbers` and puts them in the
/// menu's order.
pub open spec fn is_newest_first(numbers: Seq<u32>, order: Seq<usize>) -> bool {
    &&& order.len() == numbers.len()
    &&& forall|a: int| 0 <= a < order.len() ==> (#[trigger] order[a]) < numbers.len()
    &&& forall|j: int| 0 <= j < numbers.len() ==> #[trigger] places(order, j)
    &&& forall|a: int, b: int|
        0 <= a < b < order.len() ==> comes_before(numbers, #[trigger] order[a], #[trigger] order[b])
}

/// [`newest_first`] puts the indices in the menu's order.
pub proof fn lemma_newest_first_is_ordered(numbers: Seq<u32>)
    requires
        numbers.len() <= usize::MAX,
    ensures
        is_newest_first(numbers, newest_first(numbers)),
{
    lemma_newest_first(numbers, numbers.len());
    let order = newest_first(numbers);
    assert forall|a: int, b: int| 0 <= a < b < order.len() implies comes_before(
        numbers,
        #[trigger] order[a],
        #[trigger] order[b],
    ) by {
        assert(numbers[order[a] as int] >= numbers[order[b] as int]);
    }
}

/// The menu's order is one order: any two sequences that hold each index of
/// `numbers` and put them in that order are the same.
pub proof fn lemma_newest_first_is_unique(numbers: Seq<u32>, first: Seq<usize>, second: Seq<usize>)
    requires
        is_newest_first(numbers, first),
        is_newest_first(numbers, second),
    ensures
        first == second,
{
    assert forall|a: int| 0 <= a < first.len() implies first[a] == second[a] by {
        lemma_same_up_to(numbers, first, second, a);
    }
    assert(first =~= second);
}

/// Two sequences in the menu's order agree at every index up to `a`.
proof fn lemma_same_up_to(numbers: Seq<u32>, first: Seq<usize>, second: Seq<usize>, a: int)
    requires
        is_newest_first(numbers, first),
        is_newest_first(numbers, second),
        0 <= a < first.len(),
    ensures
        forall|k: int| 0 <= k <= a ==> first[k] == second[k],
    decreases a,
{
    if a > 0 {
        lemma_same_up_to(numbers, first, second, a - 1);
    }
    if first[a] != second[a] {
        lemma_later_in_other(numbers, first, second, a);
        lemma_later_in_other(numbers, second, first, a);
    }
}

/// Where two sequences in the menu's order agree before `a` and differ at
/// `a`, the index that `first` holds at `a` comes after the one that
/// `second` holds there.
proof fn lemma_later_in_other(numbers: Seq<u32>, first: Seq<usize>, second: Seq<usize>, a: int)
    requires
        is_newest_first(numbers, first),
        is_newest_first(numbers, second),
        0 <= a < first.len(),
        forall|k: int| 0 <= k < a ==> first[k] == second[k],
        first[a] != second[a],
    ensures
        comes_before(numbers, second[a], first[a]),
{
    let i = first[a];
    assert(places(second, i as int));
    let b = choose|b: int| 0 <= b < second.len() && #[trigger] second[b] == i as int;
    if b < a {
        assert(first[b] == second[b]);
        assert(comes_before(numbers, first[b], first[a]));
    }
    assert(b > a);
    assert(comes_before(numbers, second[a], second[b]));
}

/// Computes [`newest_first`].
fn sort_newest_first(numbers: &Vec<u32>) -> (r: Vec<usize>)
    ensures
        r@ == newest_first(numbers@),
        r.len() == numbers.len(),
        forall|a: int| 0 <= a < r.len() ==> (#[trigger] r@[a]) < numbers.len(),
{
    let mut order: Vec<usize> = Vec::new();
    let mut k: usize = 0;
    while k < numbers.len()
        invariant
            k <= numbers.len(),
            order@ == newest_first_of(numbers@, k as nat),
            order.len() == k,
            forall|a: int| 0 <= a < order.len() ==> (#[trigger] order@[a]) < k,
        decreases numbers.len() - k,
    {
        let x = numbers[k];
        let mut p: usize = 0;
        while p < order.len() && numbers[order[p]] >= x
            invariant
                p <= order.len(),
                k < numbers.len(),
                x == numbers@[k as int],
                forall|a: int| 0 <= a < order.len() ==> (#[trigger] order@[a]) < k,
                forall|i: int| 0 <= i < p ==> numbers@[(#[trigger] order@[i]) as int] >= x,
            decreases order.len() - p,
        {
            p += 1;
        }
        proof {
            lemma_rank_is(numbers@, order@, x, p as int);
            lemma_newest_first(numbers@, (k + 1) as nat);
        }
        order.insert(p, k);
        k += 1;
    }
    order
}

/// Why no configuration can be written.
#[derive(Debug, Clone, Copy, PartialEq, Eq, Structural)]
pub enum ConfigError {
    /// There is no generation to boot.
    NoGenerations,
}

/// The views of a list of generations with what the file system says of
/// them.
pub open spec fn found_views(v: Seq<(Gen, GenerationFacts)>) -> Seq<(GenView, FactsView)> {
    Seq::new(v.len(), |i: int| (v[i].0@, v[i].1@))
}

/// The numbers of `gens`.
pub open spec fn found_numbers(gens: Seq<(GenView, FactsView)>) -> Seq<u32> {
    Seq::new(gens.len(), |i: int| gens[i].0.number)
}

/// The resolved directories of `gens`.
pub open spec fn found_dirs(gens: Seq<(GenView, FactsView)>) -> Seq<Seq<char>> {
    Seq::new(gens.len(), |i: int| gens[i].1.resolved_dir)
}

/// Index of the generation that the main entry boots: the first whose
/// directory is `default_target`, the system in use; where no target is
/// known or no generation lies there, the newest.
pub open spec fn default_at(gens: Seq<(GenView, FactsView)>, default_target: Option<Seq<char>>) -> int {
    match default_target {
        Some(target) => match first_at(found_dirs(gens), target) {
            Some(i) => i,
            None => newest_at(found_numbers(gens)),
        },
        None => newest_at(found_numbers(gens)),
    }
}

/// The entries of the generations `gens[order[0]]`, `gens[order[1]]` and so
/// on, each followed by a line feed.
pub open spec fn submenu_of(gens: Seq<(GenView, FactsView)>, order: Seq<usize>) -> Seq<char>
    decreases order.len(),
{
    if order.len() == 0 {
        Seq::empty()
    } else {
        let last = gens[order.last() as int];
        submenu_of(gens, order.drop_last()) + submenu_text(details(last.0, last.1)) + "\n"@
    }
}

/// The configuration for `gens`: the main entry boots the generation at
/// [`default_at`], and lists all generations from the newest to the oldest.
/// Without generations there is none.
pub open spec fn generated_config(
    gens: Seq<(GenView, FactsView)>,
    default_target: Option<Seq<char>>,
    timeout: Option<u32>,
    extra_config: Option<Seq<char>>,
) -> Result<Seq<char>, ConfigError> {
    if gens.len() == 0 {
        Err(ConfigError::NoGenerations)
    } else {
        let main = gens[default_at(gens, default_target)];
        Ok(
            config_text(
                timeout,
                extra_config,
                details(main.0, main.1),
                submenu_of(gens, newest_first(found_numbers(gens))),
            ),
        )
    }
}

/// Writes the boot manager's configuration: computes [`generated_config`].
///
/// `generations` holds every generation of every profile with what the file
/// system says of it, `default_target` the resolved target of the link that
/// names the system in use, where one could be read, and `extra_config` the
/// content of the file of extra configuration, where one is given. Nothing is
/// written or copied.
pub fn generate_config_string(
    efi_mount: &str,
    timeout: Option<u32>,
    extra_config: Option<&str>,
    generations: &Vec<(Gen, GenerationFacts)>,
    default_target: Option<&str>,
) -> (r: Result<String, ConfigError>)
    ensures
        match r {
            Ok(text) => Ok::<Seq<char>, ConfigError>(text@),
            Err(e) => Err(e),
        } == generated_config(
            found_views(generations@),
            opt_str_text(default_target),
            timeout,
            opt_str_text(extra_config),
        ),
{
    if generations.len() == 0 {
        return Err(ConfigError::NoGenerations);
    }
    let ghost gens = found_views(generations@);
    let mut numbers: Vec<u32> = Vec::new();
    let mut dirs: Vec<String> = Vec::new();
    let mut i: usize = 0;
    while i < generations.len()
        invariant
            i <= generations.len(),
            gens == found_views(generations@),
            numbers@ == found_numbers(gens).subrange(0, i as int),
            texts(dirs@) == found_dirs(gens).subrange(0, i as int),
        decreases generations.len() - i,
    {
        let ghost before = texts(dirs@);
        numbers.push(generations[i].0.number);
        dirs.push(owned(generations[i].1.resolved_dir.as_str()));
        assert(texts(dirs@) =~= before.push(generations@[i as int].1.resolved_dir@));
        assert(numbers@ =~= found_numbers(gens).subrange(0, i + 1));
        assert(texts(dirs@) =~= found_dirs(gens).subrange(0, i + 1));
        i += 1;
    }
    assert(found_numbers(gens).subrange(0, generations.len() as int) == found_numbers(gens));
    assert(found_dirs(gens).subrange(0, generations.len() as int) == found_dirs(gens));
    let fallback = newest_index(&numbers);
    let main_at: usize = match default_target {
        Some(target) => match first_index(&dirs, target) {
            Some(at) => at,
            None => fallback,
        },
        None => fallback,
    };
    assert(main_at == default_at(gens, opt_str_text(default_target)));
    let order = sort_newest_first(&numbers);
    let mut submenu = String::new();
    let mut k: usize = 0;
    assert(order@.subrange(0, 0) == Seq::<usize>::empty());
    while k < order.len()
        invariant
            k <= order.len(),
            gens == found_views(generations@),
            order.len() == generations.len(),
            forall|a: int| 0 <= a < order.len() ==> (#[trigger] order@[a]) < generations.len(),
            submenu@ == submenu_of(gens, order@.subrange(0, k as int)),
        decreases order.len() - k,
    {
        proof {
            let next = order@.subrange(0, k + 1);
            assert(next.drop_last() == order@.subrange(0, k as int));
            assert(next.last() == order@[k as int]);
        }
        let at = order[k];
        let shown = generation_details(&generations[at].0, efi_mount, &generations[at].1);
        let entry = submenu_entry(&shown);
        push_text(&mut submenu, entry.as_str());
        push_text(&mut submenu, "\n");
        k += 1;
    }
    assert(order@.subrange(0, order.len() as int) == order@);
    let main_details = generation_details(
        &generations[main_at].0,
        efi_mount,
        &generations[main_at].1,
    );
    Ok(build_config_text(timeout, extra_config, &main_details, submenu.as_str()))
}

} // verus!
