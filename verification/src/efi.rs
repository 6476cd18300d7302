//! Reconciliation of the firmware's boot entry for the boot manager.
//!
//! The firmware tool is run by the caller. This module reads what the tool
//! printed, finds the disk and partition that hold the boot partition, and
//! decides which invocations of the tool bring the firmware's table in line.

use vstd::prelude::*;
use crate::config::{InstallConfig, ToolOutput};
use crate::path::{file_name, file_name_of, join, join_path};
use crate::text::{
    chars_of, contains, has_prefix, has_substring, is_char, lemma_run_len_is, lines, lines_of,
    matches_at, opt_text, owned, push_text, run_len, same_text, starts_with, string_of_range,
    texts, tokens, tokens_of,
};

verus! {

/// Why a pattern was not accepted.
#[verifier::external_type_specification]
#[verifier::external_body]
pub struct ExPatternError(regex::Error);

/// Whether `regex::Regex::new` accepts `pattern`.
pub uninterp spec fn pattern_is_valid(pattern: Seq<char>) -> bool;

/// What the first capture group of `pattern` holds in the leftmost match that
/// `regex::Regex::captures` finds in `haystack`; `None` where there is no
/// match or the group took no part in it.
pub uninterp spec fn first_group(pattern: Seq<char>, haystack: Seq<char>) -> Option<Seq<char>>;

/// Compiles `pattern` with `regex::Regex::new`, searches `haystack` with
/// `Regex::captures` and hands out the text of capture group 1. The contract
/// only names the outcome: the error is that of the compilation, and the text
/// is what the search captured.
#[verifier::external_body]
fn capture_first_group(pattern: &str, haystack: &str) -> (r: Result<Option<String>, regex::Error>)
    ensures
        r is Ok <==> pattern_is_valid(pattern@),
        r matches Ok(m) ==> opt_text(m) == first_group(pattern@, haystack@),
{
    let re = regex::Regex::new(pattern)?;
    Ok(re.captures(haystack).and_then(|c| c.get(1)).map(|m| m.as_str().to_string()))
}

/// Label of the firmware entry that this crate maintains.
pub const ENTRY_LABEL: &'static str = "rEFInd";

/// A line of the firmware tool's listing that names the entry: `Boot`, four
/// hexadecimal digits, an optional `*`, a space and the label.
pub const ENTRY_PATTERN: &'static str = "Boot([0-9a-fA-F]{4})\\*? rEFInd";

/// The line of the listing that gives the boot order: identifiers of four
/// hexadecimal digits, separated by commas.
pub const BOOT_ORDER_PATTERN: &'static str = "BootOrder: ((?:[0-9a-fA-F]{4},?)*)";

/// Name of a partition of a namespace device, such as `nvme0n1p3`.
pub const NVME_PARTITION_PATTERN: &'static str = "^(nvme\\d+n\\d+)p\\d+$";

/// Name of a partition whose number follows the disk's name, such as `sda1`.
pub const PLAIN_PARTITION_PATTERN: &'static str = "^([a-z]+)\\d+$";

/// What can stop the reconciliation.
#[derive(Debug, Clone, Copy, PartialEq, Eq, Structural)]
pub enum EfiError {
    /// The firmware tool exited with a status other than zero.
    FirmwareTool,
    /// A pattern of this module was not accepted.
    InvalidPattern,
    /// No directory was given to start the search for a mount point from.
    NoMountPoint,
    /// The mount table names no device for the mount point.
    DeviceNotFound,
    /// The partition's path has no last component.
    InvalidPartitionPath,
    /// The partition's name follows neither naming scheme.
    UnknownDiskDevice,
    /// No loader is known for the host's architecture.
    UnsupportedArchitecture,
}

/// One invocation of the firmware tool.
#[derive(Debug, PartialEq, Eq)]
#[allow(inconsistent_fields)]
pub enum FirmwareCommand {
    /// Remove the entry `id`.
    Delete { id: String },
    /// Create an entry. With an `id`, under that identifier, and the boot
    /// order is set to `boot_order`; without, the firmware picks the
    /// identifier and puts it in the boot order itself.
    Create {
        id: Option<String>,
        boot_order: Option<String>,
        disk: String,
        partition: String,
        loader: String,
        label: String,
    },
}

/// The view of a [`FirmwareCommand`].
#[allow(inconsistent_fields)]
pub enum CommandView {
    Delete { id: Seq<char> },
    Create {
        id: Option<Seq<char>>,
        boot_order: Option<Seq<char>>,
        disk: Seq<char>,
        partition: Seq<char>,
        loader: Seq<char>,
        label: Seq<char>,
    },
}

impl View for FirmwareCommand {
    type V = CommandView;

    open spec fn view(&self) -> CommandView {
        match *self {
            FirmwareCommand::Delete { id } => CommandView::Delete { id: id@ },
            FirmwareCommand::Create { id, boot_order, disk, partition, loader, label } => {
                CommandView::Create {
                    id: opt_text(id),
                    boot_order: opt_text(boot_order),
                    disk: disk@,
                    partition: partition@,
                    loader: loader@,
                    label: label@,
                }
            },
        }
    }
}

/// The views of a list of commands.
pub open spec fn command_views(v: Seq<FirmwareCommand>) -> Seq<CommandView> {
    Seq::new(v.len(), |i: int| v[i]@)
}

/// The view of a result that holds a string.
pub open spec fn result_text(r: Result<String, EfiError>) -> Result<Seq<char>, EfiError> {
    match r {
        Ok(s) => Ok(s@),
        Err(e) => Err(e),
    }
}

/// What [`find_existing_entry`] finds in a listing that came with the status
/// `listed` and holds the text `listing`.
pub open spec fn existing_entry(listed: bool, listing: Seq<char>) -> Result<
    Option<Seq<char>>,
    EfiError,
> {
    if !listed {
        Err(EfiError::FirmwareTool)
    } else if !pattern_is_valid(ENTRY_PATTERN@) {
        Err(EfiError::InvalidPattern)
    } else {
        Ok(first_group(ENTRY_PATTERN@, listing))
    }
}

/// Identifier of the entry that the firmware tool's listing shows under
/// this crate's label, if it shows one. `listing` is the outcome of running
/// the tool without arguments; a run that failed gives an error.
pub fn find_existing_entry(listing: &ToolOutput) -> (r: Result<Option<String>, EfiError>)
    ensures
        match r {
            Ok(id) => Ok::<Option<Seq<char>>, EfiError>(opt_text(id)),
            Err(e) => Err(e),
        } == existing_entry(listing.success, listing.stdout@),
{
    if !listing.success {
        return Err(EfiError::FirmwareTool);
    }
    match capture_first_group(ENTRY_PATTERN, listing.stdout.as_str()) {
        Ok(id) => Ok(id),
        Err(_) => Err(EfiError::InvalidPattern),
    }
}

/// The captured text, or the empty text if nothing was captured.
pub open spec fn or_empty(o: Option<Seq<char>>) -> Seq<char> {
    match o {
        Some(s) => s,
        None => Seq::empty(),
    }
}

/// The boot order that the listing `output` shows, as the tool printed it;
/// empty if it shows none.
pub fn current_boot_order(output: &str) -> (r: Result<String, EfiError>)
    ensures
        match r {
            Ok(order) => pattern_is_valid(BOOT_ORDER_PATTERN@) && order@ == or_empty(
                first_group(BOOT_ORDER_PATTERN@, output@),
            ),
            Err(e) => !pattern_is_valid(BOOT_ORDER_PATTERN@) && e == EfiError::InvalidPattern,
        },
{
    match capture_first_group(BOOT_ORDER_PATTERN, output) {
        Ok(Some(order)) => Ok(order),
        Ok(None) => Ok(String::new()),
        Err(_) => Err(EfiError::InvalidPattern),
    }
}

/// File name of the loader for the architecture `arch`, chosen by the prefix
/// of `arch`.
pub open spec fn boot_file(arch: Seq<char>) -> Option<Seq<char>> {
    if starts_with(arch, "x86_64"@) {
        Some("BOOTX64.EFI"@)
    } else if starts_with(arch, "i686"@) {
        Some("BOOTIA32.EFI"@)
    } else if starts_with(arch, "aarch64"@) {
        Some("BOOTAA64.EFI"@)
    } else {
        None
    }
}

/// Computes [`boot_file`]; an architecture outside the table is an error.
pub fn boot_file_for(arch: &str) -> (r: Result<String, EfiError>)
    ensures
        match r {
            Ok(file) => boot_file(arch@) == Some(file@),
            Err(e) => boot_file(arch@) is None && e == EfiError::UnsupportedArchitecture,
        },
{
    if has_prefix(arch, "x86_64") {
        Ok(owned("BOOTX64.EFI"))
    } else if has_prefix(arch, "i686") {
        Ok(owned("BOOTIA32.EFI"))
    } else if has_prefix(arch, "aarch64") {
        Ok(owned("BOOTAA64.EFI"))
    } else {
        Err(EfiError::UnsupportedArchitecture)
    }
}

/// Where the loader `file` lies on the boot partition, as the firmware
/// writes paths.
pub open spec fn loader_path(file: Seq<char>) -> Seq<char> {
    "\\efi\\refind\\"@ + file
}

/// Computes [`loader_path`].
pub fn loader_path_for(file: &str) -> (r: String)
    ensures
        r@ == loader_path(file@),
{
    let mut r = owned("\\efi\\refind\\");
    push_text(&mut r, file);
    r
}

/// Whether a directory on `device` is a mount point: the root, which has no
/// parent, always is; any other is one if its parent lies on another device.
pub open spec fn mount_point(device: u64, parent_device: Option<u64>) -> bool {
    match parent_device {
        None => true,
        Some(d) => device != d,
    }
}

/// Decides [`mount_point`].
pub fn is_mount_point(device: u64, parent_device: Option<u64>) -> (r: bool)
    ensures
        r == mount_point(device, parent_device),
{
    match parent_device {
        None => true,
        Some(d) => device != d,
    }
}

/// Device of the directory after `chain[i]`, if there is one.
pub open spec fn device_above(chain: Seq<(String, u64)>, i: int) -> Option<u64> {
    if i + 1 < chain.len() {
        Some(chain[i + 1].1)
    } else {
        None
    }
}

/// Index of the first mount point in `chain`, a directory followed by its
/// ancestors, each with the device it lies on.
pub open spec fn mount_boundary(chain: Seq<(String, u64)>) -> int
    recommends
        chain.len() > 0,
{
    choose|i: int|
        0 <= i < chain.len() && mount_point(chain[i].1, device_above(chain, i)) && forall|k: int|
            0 <= k < i ==> !mount_point(chain[k].1, #[trigger] device_above(chain, k))
}

/// The device that the mount table `mounts` names for `mount_point`: the
/// first field of the first line whose second field is `mount_point`.
pub open spec fn mounted_device(mounts: Seq<Seq<char>>, mount_point: Seq<char>) -> Option<
    Seq<char>,
>
    decreases mounts.len(),
{
    if mounts.len() == 0 {
        None
    } else {
        let fields = tokens(mounts[0]);
        if fields.len() >= 2 && fields[1] == mount_point {
            Some(fields[0])
        } else {
            mounted_device(mounts.subrange(1, mounts.len() as int), mount_point)
        }
    }
}

/// Reads the mount table `mounts`, one mount per line, and computes
/// [`mounted_device`] for `mount_point`.
pub fn device_for_mount_point(mounts: &str, mount_point: &str) -> (r: Option<String>)
    ensures
        opt_text(r) == mounted_device(lines(mounts@), mount_point@),
{
    let table = lines_of(mounts);
    let mut i: usize = 0;
    assert(texts(table@).subrange(0, table.len() as int) == texts(table@));
    while i < table.len()
        invariant
            i <= table.len(),
            texts(table@) == lines(mounts@),
            mounted_device(lines(mounts@), mount_point@) == mounted_device(
                texts(table@).subrange(i as int, table.len() as int),
                mount_point@,
            ),
        decreases table.len() - i,
    {
        let ghost rest = texts(table@).subrange(i as int, table.len() as int);
        let mut fields = tokens_of(table[i].as_str());
        proof {
            assert(rest[0] == table@[i as int]@);
            assert(rest.subrange(1, rest.len() as int) == texts(table@).subrange(
                i + 1,
                table.len() as int,
            ));
        }
        if fields.len() >= 2 && same_text(fields[1].as_str(), mount_point) {
            assert(texts(fields@)[1] == fields@[1]@);
            assert(texts(fields@)[0] == fields@[0]@);
            let device = fields.swap_remove(0);
            return Some(device);
        }
        proof {
            if fields.len() >= 2 {
                assert(texts(fields@)[1] == fields@[1]@);
            }
        }
        i += 1;
    }
    None
}

/// The device that holds the file system of the first directory of `chain`.
///
/// `chain` is that directory followed by its ancestors up to the root, each
/// with the identifier of the device it lies on; `mounts` is the system's
/// mount table. The mount point is the first directory of the chain that
/// lies on another device than the one after it, or the root.
pub fn find_mounted_device(chain: &Vec<(String, u64)>, mounts: &str) -> (r: Result<
    String,
    EfiError,
>)
    ensures
        chain.len() == 0 ==> r == Err::<String, EfiError>(EfiError::NoMountPoint),
        chain.len() > 0 ==> result_text(r) == match mounted_device(
            lines(mounts@),
            chain@[mount_boundary(chain@)].0@,
        ) {
            Some(device) => Ok::<Seq<char>, EfiError>(device),
            None => Err(EfiError::DeviceNotFound),
        },
{
    if chain.len() == 0 {
        return Err(EfiError::NoMountPoint);
    }
    let mut i: usize = 0;
    loop
        invariant
            i < chain.len(),
            forall|k: int| 0 <= k < i ==> !mount_point(chain@[k].1, #[trigger] device_above(chain@, k)),
        ensures
            i < chain.len(),
            mount_point(chain@[i as int].1, device_above(chain@, i as int)),
            forall|k: int| 0 <= k < i ==> !mount_point(chain@[k].1, #[trigger] device_above(chain@, k)),
        decreases chain.len() - i,
    {
        let above: Option<u64> = if i + 1 < chain.len() {
            Some(chain[i + 1].1)
        } else {
            None
        };
        if is_mount_point(chain[i].1, above) {
            break;
        }
        i += 1;
    }
    proof {
        let b = mount_boundary(chain@);
        assert(0 <= b < chain.len() && mount_point(chain@[b].1, device_above(chain@, b))
            && forall|k: int|
            0 <= k < b ==> !mount_point(chain@[k].1, #[trigger] device_above(chain@, k)));
        assert(b == i) by {
            if b < i {
                assert(!mount_point(chain@[b].1, device_above(chain@, b)));
            }
            if i < b {
                assert(!mount_point(chain@[i as int].1, device_above(chain@, i as int)));
            }
        }
    }
    match device_for_mount_point(mounts, chain[i].0.as_str()) {
        Some(device) => Ok(device),
        None => Err(EfiError::DeviceNotFound),
    }
}

/// The device node of the disk called `name`.
pub open spec fn device_node(name: Seq<char>) -> Seq<char> {
    "/dev/"@ + name
}

/// The disk that holds a partition, given what the two naming schemes
/// captured of the partition's name: the namespace scheme goes first.
pub fn disk_from_captures(nvme: Option<String>, plain: Option<String>) -> (r: Result<
    String,
    EfiError,
>)
    ensures
        result_text(r) == match (opt_text(nvme), opt_text(plain)) {
            (Some(name), _) => Ok::<Seq<char>, EfiError>(device_node(name)),
            (None, Some(name)) => Ok(device_node(name)),
            (None, None) => Err(EfiError::UnknownDiskDevice),
        },
{
    let name = match nvme {
        Some(name) => name,
        None => match plain {
            Some(name) => name,
            None => {
                return Err(EfiError::UnknownDiskDevice);
            },
        },
    };
    let mut r = owned("/dev/");
    push_text(&mut r, name.as_str());
    Ok(r)
}

/// The disk that holds the partition whose resolved device node is
/// `partition`, going by the partition's name.
pub open spec fn disk_device(partition: Seq<char>) -> Result<Seq<char>, EfiError> {
    match file_name(partition) {
        None => Err(EfiError::InvalidPartitionPath),
        Some(name) => {
            let namespaced = contains(name, "nvme"@);
            if namespaced && !pattern_is_valid(NVME_PARTITION_PATTERN@) {
                Err(EfiError::InvalidPattern)
            } else if namespaced && first_group(NVME_PARTITION_PATTERN@, name) is Some {
                Ok(device_node(first_group(NVME_PARTITION_PATTERN@, name)->0))
            } else if !pattern_is_valid(PLAIN_PARTITION_PATTERN@) {
                Err(EfiError::InvalidPattern)
            } else {
                match first_group(PLAIN_PARTITION_PATTERN@, name) {
                    Some(disk) => Ok(device_node(disk)),
                    None => Err(EfiError::UnknownDiskDevice),
                }
            }
        },
    }
}

/// Computes [`disk_device`]. `partition` is the partition's device node with
/// every link resolved.
pub fn find_disk_device(partition: &str) -> (r: Result<String, EfiError>)
    ensures
        result_text(r) == disk_device(partition@),
{
    let name = match file_name_of(partition) {
        Some(name) => name,
        None => {
            return Err(EfiError::InvalidPartitionPath);
        },
    };
    if has_substring(name.as_str(), "nvme") {
        match capture_first_group(NVME_PARTITION_PATTERN, name.as_str()) {
            Err(_) => {
                return Err(EfiError::InvalidPattern);
            },
            Ok(Some(disk)) => {
                return disk_from_captures(Some(disk), None);
            },
            Ok(None) => {},
        }
    }
    match capture_first_group(PLAIN_PARTITION_PATTERN, name.as_str()) {
        Err(_) => Err(EfiError::InvalidPattern),
        Ok(plain) => disk_from_captures(None, plain),
    }
}

/// `s` after every leading copy of `p` is taken away; all of `s` if `p` is
/// empty.
pub open spec fn strip_prefixes(s: Seq<char>, p: Seq<char>) -> Seq<char>
    decreases s.len(),
{
    if p.len() > 0 && starts_with(s, p) {
        strip_prefixes(s.subrange(p.len() as int, s.len() as int), p)
    } else {
        s
    }
}

/// The number of `partition` on `disk`: what is left of the partition's
/// device node once the disk's device node and the letters `p` after it are
/// taken away from its start.
pub open spec fn partition_number(partition: Seq<char>, disk: Seq<char>) -> Seq<char> {
    let rest = strip_prefixes(partition, disk);
    rest.subrange(run_len(rest, is_char('p')) as int, rest.len() as int)
}

/// Computes [`partition_number`].
pub fn extract_partition_number(partition: &str, disk: &str) -> (r: String)
    ensures
        r@ == partition_number(partition@, disk@),
{
    let v = chars_of(partition);
    let d = chars_of(disk);
    let mut pos: usize = 0;
    assert(v@.subrange(0, v.len() as int) == v@);
    if d.len() > 0 {
        while matches_at(&v, v.len(), &d, pos)
            invariant
                pos <= v.len(),
                d.len() > 0,
                v@.subrange(0, v.len() as int) == v@,
                strip_prefixes(v@, d@) == strip_prefixes(
                    v@.subrange(pos as int, v.len() as int),
                    d@,
                ),
            decreases v.len() - pos,
        {
            proof {
                let rest = v@.subrange(pos as int, v.len() as int);
                assert(rest.subrange(0, d.len() as int) == v@.subrange(pos as int, pos + d.len()));
                assert(rest.subrange(d.len() as int, rest.len() as int) == v@.subrange(
                    pos + d.len(),
                    v.len() as int,
                ));
            }
            pos += d.len();
        }
        proof {
            let rest = v@.subrange(pos as int, v.len() as int);
            if d.len() <= rest.len() {
                assert(rest.subrange(0, d.len() as int) == v@.subrange(pos as int, pos + d.len()));
            }
        }
    }
    let ghost rest = v@.subrange(pos as int, v.len() as int);
    assert(strip_prefixes(v@, d@) == rest);
    let mut start: usize = pos;
    while start < v.len() && v[start] == 'p'
        invariant
            pos <= start <= v.len(),
            forall|k: int| pos <= k < start ==> #[trigger] v@[k] == 'p',
        decreases v.len() - start,
    {
        start += 1;
    }
    proof {
        assert forall|k: int| 0 <= k < start - pos implies is_char('p')(#[trigger] rest[k]) by {
            assert(rest[k] == v@[pos + k]);
        }
        lemma_run_len_is(rest, is_char('p'), start - pos);
        assert(rest.subrange(start - pos, rest.len() as int) == v@.subrange(
            start as int,
            v.len() as int,
        ));
    }
    string_of_range(&v, start, v.len())
}

/// The invocations that point the firmware at `loader` on `partition` of
/// `disk`.
///
/// With an entry already there, it is removed and created again under the
/// same identifier, and the boot order that was read is handed back, so that
/// every entry keeps its place. Without one, a single creation, in which the
/// firmware picks the identifier and extends the boot order itself.
pub open spec fn reconcile_plan(
    existing: Option<Seq<char>>,
    boot_order: Seq<char>,
    disk: Seq<char>,
    partition: Seq<char>,
    loader: Seq<char>,
) -> Seq<CommandView> {
    match existing {
        Some(id) => seq![
            CommandView::Delete { id },
            CommandView::Create {
                id: Some(id),
                boot_order: Some(boot_order),
                disk,
                partition,
                loader,
                label: ENTRY_LABEL@,
            },
        ],
        None => seq![
            CommandView::Create {
                id: None,
                boot_order: None,
                disk,
                partition,
                loader,
                label: ENTRY_LABEL@,
            },
        ],
    }
}

/// Computes [`reconcile_plan`]. The caller runs the invocations in order and
/// stops at the first that fails; between the removal and the creation the
/// firmware holds no entry for the boot manager.
pub fn reconcile(
    existing: Option<String>,
    boot_order: &str,
    disk: &str,
    partition: &str,
    loader: &str,
) -> (r: Vec<FirmwareCommand>)
    ensures
        command_views(r@) == reconcile_plan(
            opt_text(existing),
            boot_order@,
            disk@,
            partition@,
            loader@,
        ),
{
    let mut plan: Vec<FirmwareCommand> = Vec::new();
    match existing {
        Some(id) => {
            let again = owned(id.as_str());
            plan.push(FirmwareCommand::Delete { id });
            plan.push(
                FirmwareCommand::Create {
                    id: Some(again),
                    boot_order: Some(owned(boot_order)),
                    disk: owned(disk),
                    partition: owned(partition),
                    loader: owned(loader),
                    label: owned(ENTRY_LABEL),
                },
            );
        },
        None => {
            plan.push(
                FirmwareCommand::Create {
                    id: None,
                    boot_order: None,
                    disk: owned(disk),
                    partition: owned(partition),
                    loader: owned(loader),
                    label: owned(ENTRY_LABEL),
                },
            );
        },
    }
    assert(command_views(plan@) =~= reconcile_plan(
        opt_text(existing),
        boot_order@,
        disk@,
        partition@,
        loader@,
    ));
    plan
}

/// The arguments of the firmware tool for the command `c`.
pub open spec fn command_args(c: CommandView) -> Seq<Seq<char>> {
    match c {
        CommandView::Delete { id } => seq!["-b"@, id, "-B"@],
        CommandView::Create { id, boot_order, disk, partition, loader, label } => {
            seq!["-c"@] + (match id {
                Some(id) => seq!["-b"@, id],
                None => Seq::empty(),
            }) + seq!["-d"@, disk, "-p"@, partition, "-l"@, loader, "-L"@, label] + (match boot_order {
                Some(order) => seq!["-o"@, order],
                None => Seq::empty(),
            })
        },
    }
}

impl FirmwareCommand {
    /// The arguments to run the firmware tool with.
    pub fn args(&self) -> (r: Vec<String>)
        ensures
            texts(r@) == command_args(self@),
    {
        let mut r: Vec<String> = Vec::new();
        match self {
            FirmwareCommand::Delete { id } => {
                r.push(owned("-b"));
                r.push(owned(id.as_str()));
                r.push(owned("-B"));
                assert(texts(r@) =~= command_args(self@));
            },
            FirmwareCommand::Create { id, boot_order, disk, partition, loader, label } => {
                r.push(owned("-c"));
                let ghost head = seq!["-c"@] + (match opt_text(*id) {
                    Some(id) => seq!["-b"@, id],
                    None => Seq::<Seq<char>>::empty(),
                });
                match id {
                    Some(id) => {
                        r.push(owned("-b"));
                        r.push(owned(id.as_str()));
                    },
                    None => {},
                }
                assert(texts(r@) =~= head);
                r.push(owned("-d"));
                r.push(owned(disk.as_str()));
                r.push(owned("-p"));
                r.push(owned(partition.as_str()));
                r.push(owned("-l"));
                r.push(owned(loader.as_str()));
                r.push(owned("-L"));
                r.push(owned(label.as_str()));
                let ghost body = head + seq![
                    "-d"@,
                    disk@,
                    "-p"@,
                    partition@,
                    "-l"@,
                    loader@,
                    "-L"@,
                    label@,
                ];
                assert(texts(r@) =~= body);
                match boot_order {
                    Some(order) => {
                        r.push(owned("-o"));
                        r.push(owned(order.as_str()));
                    },
                    None => {},
                }
                assert(texts(r@) =~= command_args(self@));
            },
        }
        r
    }
}

/// Where the firmware tool lies under the directory `config.efi_boot_mgr_path`.
pub fn firmware_tool_path(config: &InstallConfig) -> (r: String)
    ensures
        r@ == join(config.efi_boot_mgr_path@, "bin/efibootmgr"@),
{
    join_path(config.efi_boot_mgr_path.as_str(), "bin/efibootmgr")
}

/// What [`setup_efi_boot_entry`] decides.
///
/// `listed` and `listing` are the outcome of running the firmware tool
/// without arguments, and `resolved_partition` is the device node of the
/// boot partition with every link resolved. Disk and partition number are
/// both taken from that one device node.
pub open spec fn setup_plan(
    arch: Seq<char>,
    listed: bool,
    listing: Seq<char>,
    resolved_partition: Seq<char>,
) -> Result<Seq<CommandView>, EfiError> {
    match existing_entry(listed, listing) {
        Err(e) => Err(e),
        Ok(existing) => match disk_device(resolved_partition) {
            Err(e) => Err(e),
            Ok(disk) => match boot_file(arch) {
                None => Err(EfiError::UnsupportedArchitecture),
                Some(file) => if existing is Some && !pattern_is_valid(BOOT_ORDER_PATTERN@) {
                    Err(EfiError::InvalidPattern)
                } else {
                    Ok(
                        reconcile_plan(
                            existing,
                            or_empty(first_group(BOOT_ORDER_PATTERN@, listing)),
                            disk,
                            partition_number(resolved_partition, disk),
                            loader_path(file),
                        ),
                    )
                },
            },
        },
    }
}

/// Decides how to make the firmware boot the boot manager: computes
/// [`setup_plan`]. The caller runs the invocations in the order and to the
/// end that [`crate::progress::next_step`] gives: every failure is fatal.
pub fn setup_efi_boot_entry(
    config: &InstallConfig,
    listing: &ToolOutput,
    resolved_partition: &str,
) -> (r: Result<Vec<FirmwareCommand>, EfiError>)
    ensures
        match r {
            Ok(plan) => Ok::<Seq<CommandView>, EfiError>(command_views(plan@)),
            Err(e) => Err(e),
        } == setup_plan(
            config.host_architecture@,
            listing.success,
            listing.stdout@,
            resolved_partition@,
        ),
{
    let existing = match find_existing_entry(listing) {
        Ok(existing) => existing,
        Err(e) => {
            return Err(e);
        },
    };
    let disk = match find_disk_device(resolved_partition) {
        Ok(disk) => disk,
        Err(e) => {
            return Err(e);
        },
    };
    let file = match boot_file_for(config.host_architecture.as_str()) {
        Ok(file) => file,
        Err(e) => {
            return Err(e);
        },
    };
    let loader = loader_path_for(file.as_str());
    let partition = extract_partition_number(resolved_partition, disk.as_str());
    match existing {
        Some(id) => {
            let order = match current_boot_order(listing.stdout.as_str()) {
                Ok(order) => order,
                Err(e) => {
                    return Err(e);
                },
            };
            Ok(
                reconcile(
                    Some(id),
                    order.as_str(),
                    disk.as_str(),
                    partition.as_str(),
                    loader.as_str(),
                ),
            )
        },
        None => Ok(reconcile(None, "", disk.as_str(), partition.as_str(), loader.as_str())),
    }
}

/// An entry of the firmware's table.
pub struct EntryView {
    pub disk: Seq<char>,
    pub partition: Seq<char>,
    pub loader: Seq<char>,
    pub label: Seq<char>,
}

/// The firmware's table: its entries by identifier, and the boot order as
/// the firmware tool prints it.
pub struct FirmwareView {
    pub entries: Map<Seq<char>, EntryView>,
    pub boot_order: Seq<char>,
}

/// Whether running `c` can take the firmware from `before` to `after`.
///
/// A removal takes the entry out of the table and may change the boot order
/// in any way. A creation under a given identifier puts the entry in and sets
/// the boot order it is given. A creation without an identifier is left to
/// the firmware.
pub open spec fn runs(c: CommandView, before: FirmwareView, after: FirmwareView) -> bool {
    match c {
        CommandView::Delete { id } => after.entries == before.entries.remove(id),
        CommandView::Create { id: Some(id), boot_order: Some(order), disk, partition, loader, label } => {
            &&& after.entries == before.entries.insert(
                id,
                EntryView { disk, partition, loader, label },
            )
            &&& after.boot_order == order
        },
        _ => true,
    }
}

/// Reconciling an entry that exists keeps its identifier and the boot order:
/// whatever the removal does to the boot order, after the two invocations
/// the boot order is the one that was read, the entry stands under the same
/// identifier and points at the new loader, and no other entry has changed.
pub proof fn lemma_reconcile_keeps_order(
    id: Seq<char>,
    disk: Seq<char>,
    partition: Seq<char>,
    loader: Seq<char>,
    before: FirmwareView,
    between: FirmwareView,
    after: FirmwareView,
)
    requires
        before.entries.dom().contains(id),
        runs(reconcile_plan(Some(id), before.boot_order, disk, partition, loader)[0], before, between),
        runs(reconcile_plan(Some(id), before.boot_order, disk, partition, loader)[1], between, after),
    ensures
        reconcile_plan(Some(id), before.boot_order, disk, partition, loader).len() == 2,
        after.boot_order == before.boot_order,
        after.entries.dom() == before.entries.dom(),
        after.entries[id] == (EntryView { disk, partition, loader, label: ENTRY_LABEL@ }),
        forall|other: Seq<char>|
            other != id && before.entries.dom().contains(other) ==> after.entries[other]
                == before.entries[other],
{
    assert(after.entries.dom() =~= before.entries.dom());
}

/// Reconciling again changes nothing: from a table that a reconciliation
/// left behind, a second one with the same disk, partition and loader leads
/// to the same entries and the same boot order.
pub proof fn lemma_reconcile_is_idempotent(
    id: Seq<char>,
    disk: Seq<char>,
    partition: Seq<char>,
    loader: Seq<char>,
    before: FirmwareView,
    between: FirmwareView,
    reconciled: FirmwareView,
    between_again: FirmwareView,
    again: FirmwareView,
)
    requires
        before.entries.dom().contains(id),
        runs(reconcile_plan(Some(id), before.boot_order, disk, partition, loader)[0], before, between),
        runs(
            reconcile_plan(Some(id), before.boot_order, disk, partition, loader)[1],
            between,
            reconciled,
        ),
        runs(
            reconcile_plan(Some(id), reconciled.boot_order, disk, partition, loader)[0],
            reconciled,
            between_again,
        ),
        runs(
            reconcile_plan(Some(id), reconciled.boot_order, disk, partition, loader)[1],
            between_again,
            again,
        ),
    ensures
        again.entries == reconciled.entries,
        again.boot_order == reconciled.boot_order,
{
    lemma_reconcile_keeps_order(id, disk, partition, loader, before, between, reconciled);
    lemma_reconcile_keeps_order(id, disk, partition, loader, reconciled, between_again, again);
    assert(again.entries =~= reconciled.entries);
}

} // verus!
