//! The volume registry: the managed volumes, placement of new files, and the mapping from
//! a file reference back to the file's path on disk.

use vstd::prelude::*;
use vstd::utf8::encode_utf8;

use crate::codec::{
    base64_decoded, file_id_text, lemma_file_ids_distinct, lemma_references_distinct,
    crc32_of, decode_file_name, gen_file_crc32, file_id_of, gen_file_id, gen_file_name,
    inset_dir_by_key, lemma_reference_round_trip, parse_reference, reference_text, shard_of,
};
use crate::error::StoreError;
use crate::next_file::SumSizeFile;
use crate::text::{chars_of, decimal, decimal_chars, lemma_no_sep_in_decimal, push_all, string_of};
use crate::wrr::{exhausted, model_wf, next_state, Weight, WeightedRoundRobin};

verus! {

/// A volume, as values.
pub ghost struct RootDirModel {
    pub name: Seq<char>,
    pub dir: Seq<char>,
    pub read_write: bool,
    pub max_disk_size: u64,
    /// The bytes committed to the volume, as its size accountant holds them.
    pub used: nat,
    pub weight: int,
}

/// A managed storage root.
pub struct RootDir {
    name: String,
    dir: String,
    read_write: bool,
    max_disk_size: u64,
    next_file: SumSizeFile,
    weight: i32,
}

impl View for RootDir {
    type V = RootDirModel;

    closed spec fn view(&self) -> RootDirModel {
        RootDirModel {
            name: self.name@,
            dir: self.dir@,
            read_write: self.read_write,
            max_disk_size: self.max_disk_size,
            used: self.next_file@,
            weight: self.weight as int,
        }
    }
}

/// The weight of a volume in placement: a volume that takes no writes weighs nothing.
pub open spec fn placement_weight(d: RootDirModel) -> int {
    if d.read_write && d.weight > 0 {
        d.weight
    } else {
        0
    }
}

impl Weight for RootDir {
    open spec fn spec_weight(&self) -> int {
        placement_weight(self@)
    }

    /// A volume that takes no writes weighs nothing in placement.
    fn weight(&self) -> (r: i32) {
        if self.read_write && self.weight > 0 {
            self.weight
        } else {
            0
        }
    }
}

impl RootDir {
    /// A volume of weight one whose size accountant is `next_file`.
    pub fn new(name: String, dir: String, read_write: bool, max_disk_size: u64, next_file: SumSizeFile) -> (r:
        RootDir)
        ensures
            r@ == (RootDirModel {
                name: name@,
                dir: dir@,
                read_write,
                max_disk_size,
                used: next_file@,
                weight: 1,
            }),
    {
        RootDir { name, dir, read_write, max_disk_size, next_file, weight: 1 }
    }

    /// The same volume with placement weight `weight`.
    pub fn with_weight(self, weight: i32) -> (r: RootDir)
        requires
            weight >= 1,
        ensures
            r@ == (RootDirModel { weight: weight as int, ..self@ }),
    {
        RootDir { weight, ..self }
    }

    pub fn name(&self) -> (r: &String)
        ensures
            r@ == self@.name,
    {
        &self.name
    }

    pub fn dir(&self) -> (r: &String)
        ensures
            r@ == self@.dir,
    {
        &self.dir
    }

    /// Where the size log of a volume rooted at `dir` lies.
    pub fn size_file_path(dir: &String) -> (r: String)
        ensures
            r@ == size_log_path(dir@),
    {
        let mut p = chars_of(dir.as_str());
        push_all(&mut p, &chars_of("/current_dir_size.txt"));
        string_of(&p)
    }

    pub fn read_write(&self) -> (r: bool)
        ensures
            r == self@.read_write,
    {
        self.read_write
    }

    pub fn max_disk_size(&self) -> (r: u64)
        ensures
            r == self@.max_disk_size,
    {
        self.max_disk_size
    }

    /// The bytes committed to this volume.
    pub fn used_bytes(&self) -> (r: u64)
        ensures
            r == self@.used,
    {
        self.next_file.get_cursor()
    }
}

/// Where the size log of a volume rooted at `dir` lies.
pub open spec fn size_log_path(dir: Seq<char>) -> Seq<char> {
    dir + "/current_dir_size.txt"@
}

/// The path of the file with the given shard levels, id and extension on a volume.
pub open spec fn real_path(
    dir: Seq<char>,
    shard0: Seq<char>,
    shard1: Seq<char>,
    file_id: Seq<char>,
    ext: Seq<char>,
) -> Seq<char> {
    dir + seq!['/'] + shard0 + seq!['/'] + shard1 + seq!['/'] + file_id + seq!['.'] + ext
}

/// The directory that holds a file of the given shard on a volume.
pub open spec fn shard_dir(dir: Seq<char>, shard: Seq<char>) -> Seq<char> {
    dir + seq!['/'] + shard + seq!['/'] + shard
}

/// The position of the volume called `name`, if there is one.
pub open spec fn volume_named(dirs: Seq<RootDirModel>, name: Seq<char>) -> Option<int> {
    if exists|i: int| 0 <= i < dirs.len() && (#[trigger] dirs[i]).name == name {
        Some(choose|i: int| 0 <= i < dirs.len() && (#[trigger] dirs[i]).name == name)
    } else {
        None
    }
}

/// The path that a file reference resolves to on the given volumes.
pub open spec fn resolved_path(dirs: Seq<RootDirModel>, reference: Seq<char>) -> Result<
    Seq<char>,
    StoreError,
> {
    match parse_reference(reference) {
        Err(e) => Err(e),
        Ok(f) => match volume_named(dirs, f.1) {
            None => Err(StoreError::UnknownVolume),
            Some(i) => Ok(real_path(dirs[i].dir, f.2, f.3, f.4, f.5)),
        },
    }
}

/// Whether no two volumes share a name.
pub open spec fn names_unique(dirs: Seq<RootDirModel>) -> bool {
    forall|i: int, j: int|
        0 <= i < dirs.len() && 0 <= j < dirs.len() && i != j ==> dirs[i].name != dirs[j].name
}

/// Whether no two of the volumes share a name.
pub fn has_unique_names(root_dirs: &Vec<RootDir>) -> (r: bool)
    ensures
        r == names_unique(root_dirs@.map_values(|d: RootDir| d@)),
{
    let ghost dirs = root_dirs@.map_values(|d: RootDir| d@);
    let mut i: usize = 0;
    while i < root_dirs.len()
        invariant
            i <= root_dirs.len(),
            dirs == root_dirs@.map_values(|d: RootDir| d@),
            forall|a: int, b: int|
                0 <= a < i && 0 <= b < dirs.len() && a != b ==> dirs[a].name != dirs[b].name,
        decreases root_dirs.len() - i,
    {
        let mut j: usize = 0;
        while j < root_dirs.len()
            invariant
                i < root_dirs.len(),
                j <= root_dirs.len(),
                dirs == root_dirs@.map_values(|d: RootDir| d@),
                forall|a: int, b: int|
                    0 <= a < i && 0 <= b < dirs.len() && a != b ==> dirs[a].name != dirs[b].name,
                forall|b: int| 0 <= b < j && i != b ==> dirs[i as int].name != dirs[b].name,
            decreases root_dirs.len() - j,
        {
            if i != j && root_dirs[i].name == root_dirs[j].name {
                assert(dirs[i as int].name == dirs[j as int].name);
                return false;
            }
            j += 1;
        }
        i += 1;
    }
    true
}

/// The files and directories of one write: the caller stores the bytes at `tmp_path`,
/// renames them to `final_path` (creating `parent_dir` first if it is missing), and
/// then records the size with `Storage::record_saved`.
pub struct WritePlan {
    /// The position of the chosen volume.
    pub volume: usize,
    pub file_id: String,
    pub tmp_path: String,
    pub final_path: String,
    pub parent_dir: String,
    /// The reference handed back to the client.
    pub reference: String,
    pub size: u64,
}

/// Whether `plan` is the write of `data` with extension `ext`, made at `timestamp` by a
/// node with the given host, group and scratch directory, onto the volume `vol`.
pub open spec fn is_write_plan(
    plan: WritePlan,
    vol: RootDirModel,
    host: Seq<char>,
    group: Seq<char>,
    tmp: Seq<char>,
    data: Seq<u8>,
    ext: Seq<char>,
    timestamp: u64,
) -> bool {
    let shard = decimal(shard_of(data) as nat);
    &&& exists|nonce: u32|
        plan.file_id@ == #[trigger] file_id_of(host, timestamp, data.len() as u64, crc32_of(data), nonce)
            && base64_decoded(plan.file_id@) == Some(
            encode_utf8(file_id_text(host, timestamp, data.len() as u64, crc32_of(data), nonce)),
        )
    &&& plan.size == data.len()
    &&& plan.tmp_path@ == tmp + seq!['/'] + plan.file_id@
    &&& plan.parent_dir@ == shard_dir(vol.dir, shard)
    &&& plan.final_path@ == real_path(vol.dir, shard, shard, plan.file_id@, ext)
    &&& plan.reference@ == reference_text(group, vol.name, shard, plan.file_id@, ext)
}

/// A reference resolves, on the volumes it was made for, to the path its file was
/// written to, when the group, the volume's name, the shard, the id and the extension
/// hold no `/` and the volumes' names are unique.
pub proof fn lemma_reference_resolves(
    dirs: Seq<RootDirModel>,
    i: int,
    group: Seq<char>,
    shard: Seq<char>,
    file_id: Seq<char>,
    ext: Seq<char>,
)
    requires
        names_unique(dirs),
        0 <= i < dirs.len(),
        !group.contains('/'),
        !dirs[i].name.contains('/'),
        !shard.contains('/'),
        !file_id.contains('/'),
        !ext.contains('/'),
    ensures
        resolved_path(dirs, reference_text(group, dirs[i].name, shard, file_id, ext)) == Ok::<
            Seq<char>,
            StoreError,
        >(real_path(dirs[i].dir, shard, shard, file_id, ext)),
{
    lemma_reference_round_trip(group, dirs[i].name, shard, file_id, ext);
    assert(dirs[i].name == dirs[i].name);
    let c = choose|c: int| 0 <= c < dirs.len() && (#[trigger] dirs[c]).name == dirs[i].name;
    assert(c == i);
}

/// Reading back a write: the reference of a planned write resolves to the path that the
/// plan writes the file to, when the group, the volume's name, the file id and the
/// extension hold no `/` and the volumes' names are unique.
pub proof fn lemma_write_read_round_trip(
    plan: WritePlan,
    dirs: Seq<RootDirModel>,
    host: Seq<char>,
    group: Seq<char>,
    tmp: Seq<char>,
    data: Seq<u8>,
    ext: Seq<char>,
    timestamp: u64,
)
    requires
        names_unique(dirs),
        plan.volume < dirs.len(),
        is_write_plan(plan, dirs[plan.volume as int], host, group, tmp, data, ext, timestamp),
        !group.contains('/'),
        !dirs[plan.volume as int].name.contains('/'),
        !plan.file_id@.contains('/'),
        !ext.contains('/'),
    ensures
        resolved_path(dirs, plan.reference@) == Ok::<Seq<char>, StoreError>(plan.final_path@),
{
    lemma_no_sep_in_decimal(shard_of(data) as nat, '/');
    lemma_reference_resolves(
        dirs,
        plan.volume as int,
        group,
        decimal(shard_of(data) as nat),
        plan.file_id@,
        ext,
    );
}

/// How an attempt to rename a written file into place ended.
#[derive(Debug, Clone, Copy, PartialEq, Eq, Structural)]
pub enum RenameOutcome {
    Renamed,
    /// The directory that should hold the file does not exist.
    ParentMissing,
    Failed,
}

/// What a writer does after a rename.
#[derive(Debug, Clone, Copy, PartialEq, Eq, Structural)]
pub enum WriteStep {
    /// Record the size and the journal entry, and hand back the reference.
    Commit,
    /// Create the missing directories and rename again.
    CreateParentAndRetry,
    /// Give up on this write.
    Fail,
}

/// The write protocol after a rename: commit once it succeeded; when the parent directory
/// is missing, create it and retry, once only; fail on any other error.
pub fn after_rename(retried: bool, outcome: RenameOutcome) -> (r: WriteStep)
    ensures
        r == (match outcome {
            RenameOutcome::Renamed => WriteStep::Commit,
            RenameOutcome::ParentMissing => if retried {
                WriteStep::Fail
            } else {
                WriteStep::CreateParentAndRetry
            },
            RenameOutcome::Failed => WriteStep::Fail,
        }),
{
    match outcome {
        RenameOutcome::Renamed => WriteStep::Commit,
        RenameOutcome::ParentMissing => if retried {
            WriteStep::Fail
        } else {
            WriteStep::CreateParentAndRetry
        },
        RenameOutcome::Failed => WriteStep::Fail,
    }
}

/// Two writes of the same bytes to the same volume get different references when they differ
/// in creation time or nonce, and the host holds no `_`.
pub proof fn lemma_distinct_writes(
    p1: WritePlan,
    p2: WritePlan,
    vol: RootDirModel,
    host: Seq<char>,
    group: Seq<char>,
    tmp: Seq<char>,
    data: Seq<u8>,
    ext: Seq<char>,
    t1: (u64, u32),
    t2: (u64, u32),
)
    requires
        is_write_plan(p1, vol, host, group, tmp, data, ext, t1.0),
        is_write_plan(p2, vol, host, group, tmp, data, ext, t2.0),
        base64_decoded(p1.file_id@) == Some(
            encode_utf8(file_id_text(host, t1.0, data.len() as u64, crc32_of(data), t1.1)),
        ),
        base64_decoded(p2.file_id@) == Some(
            encode_utf8(file_id_text(host, t2.0, data.len() as u64, crc32_of(data), t2.1)),
        ),
        !host.contains('_'),
        t1 != t2,
    ensures
        p1.reference@ != p2.reference@,
{
    let size = data.len() as u64;
    let crc = crc32_of(data);
    lemma_file_ids_distinct(p1.file_id@, p2.file_id@, host, (t1.0, size, crc, t1.1), (t2.0, size, crc, t2.1));
    lemma_references_distinct(group, vol.name, decimal(shard_of(data) as nat), p1.file_id@, p2.file_id@, ext);
}

/// The bytes stored on one volume, as reported to clients.
pub struct RootDirSizeResponse {
    pub root_name: String,
    pub size: u64,
}

/// The volumes of one node, with the selector that places new files on them.
pub struct Storage {
    local_ip: String,
    group_name: String,
    dir_count: u8,
    tmp_dir: String,
    root_dirs: Vec<RootDir>,
    rrw_root_dirs: WeightedRoundRobin,
}

impl Storage {
    /// The volumes, as values, in the order they were given.
    pub closed spec fn volumes(&self) -> Seq<RootDirModel> {
        self.root_dirs@.map_values(|d: RootDir| d@)
    }

    /// The address of this node, written into new file ids.
    pub closed spec fn host(&self) -> Seq<char> {
        self.local_ip@
    }

    /// The group written into new references.
    pub closed spec fn group(&self) -> Seq<char> {
        self.group_name@
    }

    /// The scratch directory that new files are written to before they are renamed.
    pub closed spec fn scratch_dir(&self) -> Seq<char> {
        self.tmp_dir@
    }

    /// The number of shard directories per level that the node is configured for.
    pub closed spec fn shard_dirs(&self) -> u8 {
        self.dir_count
    }

    /// The selector's state.
    pub closed spec fn selector(&self) -> crate::wrr::SelectorModel {
        self.rrw_root_dirs@
    }

    /// The selector and the volumes cover the same list, and names are unique.
    pub closed spec fn wf(&self) -> bool {
        &&& self.rrw_root_dirs.wf()
        &&& self.rrw_root_dirs@.weights.len() == self.root_dirs@.len()
        &&& names_unique(self.volumes())
    }

    /// A registry over the given volumes, whose names must differ.
    pub fn new(root_dir_vec: Vec<RootDir>) -> (r: Storage)
        requires
            names_unique(root_dir_vec@.map_values(|d: RootDir| d@)),
        ensures
            r.wf(),
            r.volumes() == root_dir_vec@.map_values(|d: RootDir| d@),
            model_wf(r.selector()),
            r.selector().weights.len() == root_dir_vec@.len(),
            forall|i: int|
                0 <= i < root_dir_vec@.len() ==> r.selector().weights[i] == placement_weight(
                    #[trigger] root_dir_vec@[i]@,
                ),
            r.selector().current_weight == 0,
            r.host() == "localhost"@,
            r.group() == "group1"@,
            r.scratch_dir() == "./tmp"@,
            r.shard_dirs() == 32,
    {
        let rrw_root_dirs = WeightedRoundRobin::new(&root_dir_vec);
        assert forall|i: int| 0 <= i < root_dir_vec@.len() implies rrw_root_dirs@.weights[i]
            == placement_weight(#[trigger] root_dir_vec@[i]@) by {
            assert(rrw_root_dirs@.weights[i] == root_dir_vec@[i].spec_weight());
        }
        Storage {
            local_ip: String::from_str("localhost"),
            group_name: String::from_str("group1"),
            dir_count: 32,
            tmp_dir: String::from_str("./tmp"),
            root_dirs: root_dir_vec,
            rrw_root_dirs,
        }
    }

    /// The volumes, in the order they were given.
    pub fn root_dirs(&self) -> (r: &Vec<RootDir>)
        ensures
            r@.map_values(|d: RootDir| d@) == self.volumes(),
    {
        &self.root_dirs
    }

    /// The position of the volume called `name`.
    fn find_root_dir(&self, name: &String) -> (r: Option<usize>)
        requires
            self.wf(),
        ensures
            r == (match volume_named(self.volumes(), name@) {
                Some(i) => Some(i as usize),
                None => None::<usize>,
            }),
            r matches Some(i) ==> i < self.volumes().len() && self.volumes()[i as int].name
                == name@,
    {
        let ghost dirs = self.volumes();
        let mut i: usize = 0;
        while i < self.root_dirs.len()
            invariant
                i <= self.root_dirs.len(),
                dirs == self.volumes(),
                names_unique(dirs),
                forall|j: int| 0 <= j < i ==> (#[trigger] dirs[j]).name != name@,
            decreases self.root_dirs.len() - i,
        {
            if self.root_dirs[i].name == *name {
                assert(dirs[i as int] == self.root_dirs[i as int]@);
                assert(dirs[i as int].name == name@);
                let ghost c = choose|j: int| 0 <= j < dirs.len() && (#[trigger] dirs[j]).name == name@;
                assert(c == i);
                return Some(i);
            }
            i += 1;
        }
        None
    }

    /// Plans the write of `data` with extension `suffix_name` at `timestamp`: a new file id,
    /// the next volume of the selector, the shard of the content, and from them the paths
    /// and the reference. `NoWritableVolume` when the selector has no volume to give.
    pub fn save_file(&mut self, data: &[u8], suffix_name: &String, timestamp: u64) -> (r: Result<
        WritePlan,
        StoreError,
    >)
        requires
            old(self).wf(),
        ensures
            final(self).wf(),
            final(self).volumes() == old(self).volumes(),
            final(self).host() == old(self).host(),
            final(self).group() == old(self).group(),
            final(self).scratch_dir() == old(self).scratch_dir(),
            exhausted(old(self).selector()) ==> r == Err::<WritePlan, StoreError>(
                StoreError::NoWritableVolume,
            ) && final(self).selector() == old(self).selector(),
            !exhausted(old(self).selector()) ==> (r matches Ok(plan) && final(self).selector()
                == next_state(old(self).selector()) && plan.volume == final(self).selector().index
                && plan.volume < old(self).volumes().len() && is_write_plan(
                plan,
                old(self).volumes()[plan.volume as int],
                old(self).host(),
                old(self).group(),
                old(self).scratch_dir(),
                data@,
                suffix_name@,
                timestamp,
            )),
    {
        let size = data.len() as u64;
        let crc = gen_file_crc32(data);
        let id = gen_file_id(&self.local_ip, timestamp, size, crc);
        let ghost nonce = choose|n: u32|
            id@ == #[trigger] file_id_of(self.local_ip@, timestamp, size, crc, n) && base64_decoded(id@)
                == Some(encode_utf8(file_id_text(self.local_ip@, timestamp, size, crc, n)));
        assert(id@ == file_id_of(self.local_ip@, timestamp, data@.len() as u64, crc32_of(data@), nonce));
        let i = match self.rrw_root_dirs.next() {
            Ok(Some(i)) => i,
            _ => return Err(StoreError::NoWritableVolume),
        };
        let shard = inset_dir_by_key(crc);
        let shard_name = string_of(&decimal_chars(shard as u64));
        let ghost dirs = self.volumes();
        assert(dirs[i as int] == self.root_dirs[i as int]@);
        let reference = gen_file_name(
            &self.group_name,
            &self.root_dirs[i].name,
            &shard_name,
            &id,
            suffix_name,
        );
        let mut parent = chars_of(self.root_dirs[i].dir.as_str());
        parent.push('/');
        push_all(&mut parent, &chars_of(shard_name.as_str()));
        parent.push('/');
        push_all(&mut parent, &chars_of(shard_name.as_str()));
        let mut path: Vec<char> = Vec::new();
        push_all(&mut path, &parent);
        path.push('/');
        push_all(&mut path, &chars_of(id.as_str()));
        path.push('.');
        push_all(&mut path, &chars_of(suffix_name.as_str()));
        let mut tmp = chars_of(self.tmp_dir.as_str());
        tmp.push('/');
        push_all(&mut tmp, &chars_of(id.as_str()));
        let ghost sh = shard_name@;
        assert(parent@ =~= shard_dir(dirs[i as int].dir, sh));
        assert(path@ =~= real_path(dirs[i as int].dir, sh, sh, id@, suffix_name@));
        assert(tmp@ =~= self.tmp_dir@ + seq!['/'] + id@);
        assert(self.rrw_root_dirs@.weights.len() == self.root_dirs@.len());
        let plan = WritePlan {
            volume: i,
            file_id: id,
            tmp_path: string_of(&tmp),
            final_path: string_of(&path),
            parent_dir: string_of(&parent),
            reference,
            size,
        };
        assert(plan.parent_dir@ == shard_dir(dirs[i as int].dir, decimal(shard_of(data@) as nat)));
        assert(plan.reference@ == reference_text(
            self.group_name@,
            dirs[i as int].name,
            decimal(shard_of(data@) as nat),
            plan.file_id@,
            suffix_name@,
        ));
        Ok(plan)
    }

    /// Records that `size` bytes were committed to the volume at `volume`, once its size
    /// log holds the record; `SizeOverflow`, and nothing changes, when the total would
    /// exceed `u64`.
    pub fn record_saved(&mut self, volume: usize, size: u64) -> (r: Result<(), StoreError>)
        requires
            old(self).wf(),
            volume < old(self).volumes().len(),
        ensures
            final(self).wf(),
            final(self).selector() == old(self).selector(),
            final(self).host() == old(self).host(),
            final(self).group() == old(self).group(),
            final(self).scratch_dir() == old(self).scratch_dir(),
            old(self).volumes()[volume as int].used + size <= u64::MAX ==> r is Ok
                && final(self).volumes() == old(self).volumes().update(
                volume as int,
                (RootDirModel {
                    used: (old(self).volumes()[volume as int].used + size) as nat,
                    ..old(self).volumes()[volume as int]
                }),
            ),
            old(self).volumes()[volume as int].used + size > u64::MAX ==> r == Err::<
                (),
                StoreError,
            >(StoreError::SizeOverflow) && final(self).volumes() == old(self).volumes(),
    {
        let ghost before = self.volumes();
        assert(before[volume as int] == self.root_dirs[volume as int]@);
        let r = self.root_dirs[volume].next_file.inset(size);
        assert(self.volumes() =~= before.update(volume as int, self.root_dirs[volume as int]@));
        r
    }

    /// The bytes stored on each volume, in order.
    pub fn root_dir_sizes(&self) -> (r: Vec<RootDirSizeResponse>)
        ensures
            r@.len() == self.volumes().len(),
            forall|i: int|
                0 <= i < r@.len() ==> (#[trigger] r@[i]).root_name@ == self.volumes()[i].name
                    && r@[i].size == self.volumes()[i].used,
    {
        let mut out: Vec<RootDirSizeResponse> = Vec::new();
        let mut i: usize = 0;
        while i < self.root_dirs.len()
            invariant
                i <= self.root_dirs.len(),
                out@.len() == i,
                forall|j: int|
                    0 <= j < i ==> (#[trigger] out@[j]).root_name@ == self.volumes()[j].name
                        && out@[j].size == self.volumes()[j].used,
            decreases self.root_dirs.len() - i,
        {
            assert(self.volumes()[i as int] == self.root_dirs[i as int]@);
            out.push(
                RootDirSizeResponse {
                    root_name: self.root_dirs[i].name.clone(),
                    size: self.root_dirs[i].used_bytes(),
                },
            );
            i += 1;
        }
        out
    }

    /// The path on disk of the file that `name` references.
    pub fn decode_file_name_to_real_file_name(&self, name: &String) -> (r: Result<String, StoreError>)
        requires
            self.wf(),
        ensures
            match resolved_path(self.volumes(), name@) {
                Ok(p) => r matches Ok(s) && s@ == p,
                Err(e) => r == Err::<String, StoreError>(e),
            },
    {
        let (_, dir_name, sub_dir_name0, sub_dir_name1, id, file_ext_name) = match decode_file_name(
            name,
        ) {
            Ok(f) => f,
            Err(e) => return Err(e),
        };
        let i = match self.find_root_dir(&dir_name) {
            Some(i) => i,
            None => return Err(StoreError::UnknownVolume),
        };
        let ghost dirs = self.volumes();
        assert(dirs[i as int] == self.root_dirs[i as int]@);
        let mut p = chars_of(self.root_dirs[i].dir.as_str());
        p.push('/');
        push_all(&mut p, &chars_of(sub_dir_name0.as_str()));
        p.push('/');
        push_all(&mut p, &chars_of(sub_dir_name1.as_str()));
        p.push('/');
        push_all(&mut p, &chars_of(id.as_str()));
        p.push('.');
        push_all(&mut p, &chars_of(file_ext_name.as_str()));
        assert(p@ =~= real_path(
            dirs[i as int].dir,
            sub_dir_name0@,
            sub_dir_name1@,
            id@,
            file_ext_name@,
        ));
        let ghost k = choose|k: int| 0 <= k < dirs.len() && (#[trigger] dirs[k]).name == dir_name@;
        assert(k == i);
        assert(resolved_path(dirs, name@) == Ok::<Seq<char>, StoreError>(p@));
        Ok(string_of(&p))
    }
}

} // verus!
