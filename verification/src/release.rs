//! The `Release` / `InRelease` descriptor: parsing, the strongest-hash
//! rule, suite validation, the relevance filter and digest comparison.
//!
//! A `Release` body is deb822-like: `Suite:`, `Codename:`,
//! `Components:` and `Architectures:` fields, then hash sections
//! (`MD5Sum:`, `SHA1:`, `SHA256:`, `SHA512:`) whose indented rows are
//! `<hash> <size> <rel_path>`.  A path may be listed under several
//! sections; the strongest declared algorithm is the one a downloaded
//! file is checked against.

use vstd::prelude::*;
use vstd::string::StringSliceAdditionalSpecFns;

use crate::bytes::{
    bytes_eq, clone_bytes, dec_val, eq_ignore_case, fields, is_digits, is_prefix_of, is_space,
    lower_bytes, parse_u64, spec_fields, starts_with,
};
use crate::SyncError;

verus! {

/// The hash algorithms a `Release` may declare, weakest to strongest.
#[derive(Clone, Copy, Debug, PartialEq, Eq, Structural)]
pub enum AptMetadataHashAlgm {
    Md5,
    Sha1,
    Sha256,
    Sha512,
}

/// Rank of an algorithm; a greater rank is a stronger algorithm.
pub open spec fn strength(a: AptMetadataHashAlgm) -> int {
    match a {
        AptMetadataHashAlgm::Md5 => 0,
        AptMetadataHashAlgm::Sha1 => 1,
        AptMetadataHashAlgm::Sha256 => 2,
        AptMetadataHashAlgm::Sha512 => 3,
    }
}

pub fn strength_of(a: AptMetadataHashAlgm) -> (r: u8)
    ensures
        r as int == strength(a),
{
    match a {
        AptMetadataHashAlgm::Md5 => 0,
        AptMetadataHashAlgm::Sha1 => 1,
        AptMetadataHashAlgm::Sha256 => 2,
        AptMetadataHashAlgm::Sha512 => 3,
    }
}

/// One row of a hash section: a path with its size and declared digest.
#[derive(Clone, Debug, PartialEq, Eq)]
pub struct ReleaseFileEntry {
    pub path: Vec<u8>,
    pub size: u64,
    pub algm: AptMetadataHashAlgm,
    pub hash: Vec<u8>,
}

/// The mathematical value of a [`ReleaseFileEntry`].
pub ghost struct ReleaseFileModel {
    pub path: Seq<u8>,
    pub size: u64,
    pub algm: AptMetadataHashAlgm,
    pub hash: Seq<u8>,
}

impl View for ReleaseFileEntry {
    type V = ReleaseFileModel;

    open spec fn view(&self) -> ReleaseFileModel {
        ReleaseFileModel { path: self.path@, size: self.size, algm: self.algm, hash: self.hash@ }
    }
}

impl DeepView for ReleaseFileEntry {
    type V = ReleaseFileModel;

    open spec fn deep_view(&self) -> ReleaseFileModel {
        self@
    }
}

impl ReleaseFileEntry {
    pub fn duplicate(&self) -> (r: ReleaseFileEntry)
        ensures
            r@ == self@,
    {
        ReleaseFileEntry {
            path: clone_bytes(&self.path),
            size: self.size,
            algm: self.algm,
            hash: clone_bytes(&self.hash),
        }
    }
}

/// A parsed `Release` descriptor.
pub struct AptRepoReleaseInfo {
    pub suite: Vec<u8>,
    pub codename: Vec<u8>,
    pub components: Vec<Vec<u8>>,
    pub architectures: Vec<Vec<u8>>,
    pub files: Vec<ReleaseFileEntry>,
}

/// The mathematical value of an [`AptRepoReleaseInfo`]; also the parser's
/// accumulator, together with the open hash section.
pub ghost struct ReleaseModel {
    pub suite: Seq<u8>,
    pub codename: Seq<u8>,
    pub components: Seq<Seq<u8>>,
    pub architectures: Seq<Seq<u8>>,
    pub files: Seq<ReleaseFileModel>,
    pub section: Option<AptMetadataHashAlgm>,
}

impl View for AptRepoReleaseInfo {
    type V = ReleaseModel;

    open spec fn view(&self) -> ReleaseModel {
        ReleaseModel {
            suite: self.suite@,
            codename: self.codename@,
            components: self.components.deep_view(),
            architectures: self.architectures.deep_view(),
            files: self.files.deep_view(),
            section: None,
        }
    }
}

pub open spec fn initial_release_model() -> ReleaseModel {
    ReleaseModel {
        suite: Seq::empty(),
        codename: Seq::empty(),
        components: Seq::empty(),
        architectures: Seq::empty(),
        files: Seq::empty(),
        section: None,
    }
}

/// One step of the `Release` parser on one line.
pub open spec fn release_step(acc: ReleaseModel, line: Seq<u8>) -> ReleaseModel {
    if line.len() == 0 {
        ReleaseModel { section: None, ..acc }
    } else if is_space(line[0]) {
        match acc.section {
            None => acc,
            Some(a) => {
                let fs = spec_fields(line);
                if fs.len() == 3 && is_digits(fs[1]) && dec_val(fs[1]) <= u64::MAX {
                    ReleaseModel {
                        files: acc.files.push(
                            ReleaseFileModel {
                                path: fs[2],
                                size: dec_val(fs[1]) as u64,
                                algm: a,
                                hash: fs[0],
                            },
                        ),
                        ..acc
                    }
                } else {
                    acc
                }
            },
        }
    } else if line == "MD5Sum:".spec_bytes() {
        ReleaseModel { section: Some(AptMetadataHashAlgm::Md5), ..acc }
    } else if line == "SHA1:".spec_bytes() {
        ReleaseModel { section: Some(AptMetadataHashAlgm::Sha1), ..acc }
    } else if line == "SHA256:".spec_bytes() {
        ReleaseModel { section: Some(AptMetadataHashAlgm::Sha256), ..acc }
    } else if line == "SHA512:".spec_bytes() {
        ReleaseModel { section: Some(AptMetadataHashAlgm::Sha512), ..acc }
    } else if is_prefix_of("Suite: ".spec_bytes(), line) {
        let fs = spec_fields(line);
        if fs.len() >= 2 {
            ReleaseModel { suite: fs.last(), section: None, ..acc }
        } else {
            ReleaseModel { section: None, ..acc }
        }
    } else if is_prefix_of("Codename: ".spec_bytes(), line) {
        let fs = spec_fields(line);
        if fs.len() >= 2 {
            ReleaseModel { codename: fs.last(), section: None, ..acc }
        } else {
            ReleaseModel { section: None, ..acc }
        }
    } else if is_prefix_of("Components:".spec_bytes(), line) {
        let fs = spec_fields(line);
        if fs.len() >= 1 {
            ReleaseModel { components: fs.drop_first(), section: None, ..acc }
        } else {
            ReleaseModel { section: None, ..acc }
        }
    } else if is_prefix_of("Architectures:".spec_bytes(), line) {
        let fs = spec_fields(line);
        if fs.len() >= 1 {
            ReleaseModel { architectures: fs.drop_first(), section: None, ..acc }
        } else {
            ReleaseModel { section: None, ..acc }
        }
    } else {
        ReleaseModel { section: None, ..acc }
    }
}

pub open spec fn release_run(lines: Seq<Seq<u8>>, acc: ReleaseModel) -> ReleaseModel
    decreases lines.len(),
{
    if lines.len() == 0 {
        acc
    } else {
        release_run(lines.drop_first(), release_step(acc, lines.first()))
    }
}

/// The descriptor a whole `Release` body yields (section closed).
pub open spec fn spec_release_info(lines: Seq<Seq<u8>>) -> ReleaseModel {
    ReleaseModel { section: None, ..release_run(lines, initial_release_model()) }
}

/// Parse a verified `Release` body, given as its lines.  Unknown fields
/// and malformed rows are ignored; nothing in the body is an error —
/// whether the result names the requested suite is checked separately.
pub fn parse_release(lines: &Vec<Vec<u8>>) -> (r: AptRepoReleaseInfo)
    ensures
        r@ == spec_release_info(lines.deep_view()),
{
    let mut suite: Vec<u8> = Vec::new();
    let mut codename: Vec<u8> = Vec::new();
    let mut components: Vec<Vec<u8>> = Vec::new();
    let mut architectures: Vec<Vec<u8>> = Vec::new();
    let mut files: Vec<ReleaseFileEntry> = Vec::new();
    let mut section: Option<AptMetadataHashAlgm> = None;
    let n = lines.len();
    proof {
        assert(lines.deep_view().skip(0) =~= lines.deep_view());
        assert(suite@ =~= Seq::<u8>::empty());
        assert(codename@ =~= Seq::<u8>::empty());
        assert(components.deep_view() =~= Seq::<Seq<u8>>::empty());
        assert(architectures.deep_view() =~= Seq::<Seq<u8>>::empty());
        assert(files.deep_view() =~= Seq::<ReleaseFileModel>::empty());
    }
    let mut i: usize = 0;
    while i < n
        invariant
            n == lines@.len(),
            0 <= i <= n,
            release_run(lines.deep_view(), initial_release_model()) == release_run(
                lines.deep_view().skip(i as int),
                ReleaseModel {
                    suite: suite@,
                    codename: codename@,
                    components: components.deep_view(),
                    architectures: architectures.deep_view(),
                    files: files.deep_view(),
                    section: section,
                },
            ),
        decreases n - i,
    {
        let ghost curr = ReleaseModel {
            suite: suite@,
            codename: codename@,
            components: components.deep_view(),
            architectures: architectures.deep_view(),
            files: files.deep_view(),
            section: section,
        };
        let ghost rest = lines.deep_view().skip(i as int);
        proof {
            assert(rest.first() == lines.deep_view()[i as int]);
            assert(lines.deep_view()[i as int] == lines@[i as int]@);
            assert(rest.drop_first() =~= lines.deep_view().skip(i + 1));
        }
        let line = &lines[i];
        if line.len() == 0 {
            section = None;
        } else if {
            let b = line[0];
            b == 32 || b == 9
        } {
            match section {
                None => {
                },
                Some(a) => {
                    let fs = fields(line.as_slice());
                    if fs.len() == 3 {
                        match parse_u64(fs[1].as_slice()) {
                            Some(sz) => {
                                let e = ReleaseFileEntry {
                                    path: clone_bytes(&fs[2]),
                                    size: sz,
                                    algm: a,
                                    hash: clone_bytes(&fs[0]),
                                };
                                let ghost old_fm = files.deep_view();
                                let ghost em = e@;
                                files.push(e);
                                proof {
                                    assert(fs.deep_view()[0] == fs@[0]@);
                                    assert(fs.deep_view()[1] == fs@[1]@);
                                    assert(fs.deep_view()[2] == fs@[2]@);
                                    assert(files.deep_view() =~~= old_fm.push(em));
                                }
                            },
                            None => {
                                proof {
                                    assert(fs.deep_view()[1] == fs@[1]@);
                                }
                            },
                        }
                    }
                },
            }
        } else if bytes_eq(line.as_slice(), "MD5Sum:".as_bytes()) {
            section = Some(AptMetadataHashAlgm::Md5);
        } else if bytes_eq(line.as_slice(), "SHA1:".as_bytes()) {
            section = Some(AptMetadataHashAlgm::Sha1);
        } else if bytes_eq(line.as_slice(), "SHA256:".as_bytes()) {
            section = Some(AptMetadataHashAlgm::Sha256);
        } else if bytes_eq(line.as_slice(), "SHA512:".as_bytes()) {
            section = Some(AptMetadataHashAlgm::Sha512);
        } else if starts_with(line.as_slice(), "Suite: ".as_bytes()) {
            let mut fs = fields(line.as_slice());
            let ghost fsm = fs.deep_view();
            let ghost fsv = fs@;
            if fs.len() >= 2 {
                match fs.pop() {
                    Some(last) => {
                        suite = last;
                        proof {
                            assert(fsm.last() == fsv[fsv.len() - 1]@);
                        }
                    },
                    None => {
                    },
                }
            }
            section = None;
        } else if starts_with(line.as_slice(), "Codename: ".as_bytes()) {
            let mut fs = fields(line.as_slice());
            let ghost fsm = fs.deep_view();
            let ghost fsv = fs@;
            if fs.len() >= 2 {
                match fs.pop() {
                    Some(last) => {
                        codename = last;
                        proof {
                            assert(fsm.last() == fsv[fsv.len() - 1]@);
                        }
                    },
                    None => {
                    },
                }
            }
            section = None;
        } else if starts_with(line.as_slice(), "Components:".as_bytes()) {
            let mut fs = fields(line.as_slice());
            let ghost fsm = fs.deep_view();
            if fs.len() >= 1 {
                components = fs.split_off(1);
                proof {
                    assert(components.deep_view() =~~= fsm.drop_first());
                }
            }
            section = None;
        } else if starts_with(line.as_slice(), "Architectures:".as_bytes()) {
            let mut fs = fields(line.as_slice());
            let ghost fsm = fs.deep_view();
            if fs.len() >= 1 {
                architectures = fs.split_off(1);
                proof {
                    assert(architectures.deep_view() =~~= fsm.drop_first());
                }
            }
            section = None;
        } else {
            section = None;
        }
        proof {
            assert(release_step(curr, line@) == ReleaseModel {
                suite: suite@,
                codename: codename@,
                components: components.deep_view(),
                architectures: architectures.deep_view(),
                files: files.deep_view(),
                section: section,
            });
        }
        i = i + 1;
    }
    proof {
        assert(lines.deep_view().skip(n as int).len() == 0);
    }
    let r = AptRepoReleaseInfo { suite, codename, components, architectures, files };
    proof {
        assert(r@ == spec_release_info(lines.deep_view()));
    }
    r
}

/// The parsed descriptor answers for the requested suite: its `Suite:`
/// or its `Codename:` names it.
pub fn suite_matches(info: &AptRepoReleaseInfo, requested: &Vec<u8>) -> (r: bool)
    ensures
        r == (info.suite@ == requested@ || info.codename@ == requested@),
{
    bytes_eq(info.suite.as_slice(), requested.as_slice()) || bytes_eq(
        info.codename.as_slice(),
        requested.as_slice(),
    )
}

/// Accept the descriptor only for the suite that was asked for: the
/// mismatch error comes exactly when neither its `Suite:` nor its
/// `Codename:` is the requested name, and such a descriptor fails the
/// sync.
pub fn validate_suite(info: &AptRepoReleaseInfo, requested: &Vec<u8>) -> (r: Result<
    (),
    SyncError,
>)
    ensures
        r is Ok <==> (info.suite@ == requested@ || info.codename@ == requested@),
        r is Err ==> r->Err_0 == SyncError::SuiteMismatch,
{
    if suite_matches(info, requested) {
        Ok(())
    } else {
        Err(SyncError::SuiteMismatch)
    }
}

/// The strongest declared entry for `p`, earliest of equals: `None`
/// exactly when no row declares `p`.
pub open spec fn spec_strongest(files: Seq<ReleaseFileModel>, p: Seq<u8>) -> Option<
    ReleaseFileModel,
>
    decreases files.len(),
{
    if files.len() == 0 {
        None
    } else {
        let rest = spec_strongest(files.drop_first(), p);
        if files.first().path == p {
            match rest {
                None => Some(files.first()),
                Some(b) => if strength(b.algm) > strength(files.first().algm) {
                    Some(b)
                } else {
                    Some(files.first())
                },
            }
        } else {
            rest
        }
    }
}

fn strongest_from(files: &Vec<ReleaseFileEntry>, p: &Vec<u8>, i: usize) -> (r: Option<
    ReleaseFileEntry,
>)
    requires
        i <= files@.len(),
    ensures
        match r {
            Some(e) => spec_strongest(files.deep_view().skip(i as int), p@) == Some(e@),
            None => spec_strongest(files.deep_view().skip(i as int), p@) is None,
        },
    decreases files@.len() - i,
{
    let ghost fdv = files.deep_view();
    if i == files.len() {
        proof {
            assert(fdv.skip(i as int).len() == 0);
        }
        return None;
    }
    let rest = strongest_from(files, p, i + 1);
    let ghost sub = fdv.skip(i as int);
    proof {
        assert(sub.first() == fdv[i as int]);
        assert(fdv[i as int] == files@[i as int]@);
        assert(sub.drop_first() =~= fdv.skip(i + 1));
    }
    if bytes_eq(files[i].path.as_slice(), p.as_slice()) {
        match rest {
            None => Some(files[i].duplicate()),
            Some(b) => {
                if strength_of(b.algm) > strength_of(files[i].algm) {
                    Some(b)
                } else {
                    Some(files[i].duplicate())
                }
            },
        }
    } else {
        rest
    }
}

/// Which digest a downloaded file must be checked against: the strongest
/// declared entry for its path, `None` exactly when the path is not
/// declared at all.
pub fn strongest_entry(files: &Vec<ReleaseFileEntry>, p: &Vec<u8>) -> (r: Option<ReleaseFileEntry>)
    ensures
        match r {
            Some(e) => spec_strongest(files.deep_view(), p@) == Some(e@),
            None => spec_strongest(files.deep_view(), p@) is None,
        },
{
    let r = strongest_from(files, p, 0);
    proof {
        assert(files.deep_view().skip(0) =~= files.deep_view());
    }
    r
}

// ---------------------------------------------------------------------
// Relevance of a declared path
// ---------------------------------------------------------------------

/// The path lies under `<component>/binary-<arch>/` for a selected
/// component and architecture.
pub open spec fn rel_binary(comps: Seq<Seq<u8>>, archs: Seq<Seq<u8>>, p: Seq<u8>) -> bool {
    exists|i: int, j: int|
        0 <= i < comps.len() && 0 <= j < archs.len() && is_prefix_of(
            #[trigger] comps[i] + "/binary-".spec_bytes() + #[trigger] archs[j]
                + "/".spec_bytes(),
            p,
        )
}

/// The path is a source index `<component>/source/Sources...`.
pub open spec fn rel_sources(comps: Seq<Seq<u8>>, p: Seq<u8>) -> bool {
    exists|i: int|
        0 <= i < comps.len() && is_prefix_of(
            #[trigger] comps[i] + "/source/Sources".spec_bytes(),
            p,
        )
}

/// The path is a translation index `<component>/i18n/Translation-...`.
pub open spec fn rel_i18n(comps: Seq<Seq<u8>>, p: Seq<u8>) -> bool {
    exists|i: int|
        0 <= i < comps.len() && is_prefix_of(
            #[trigger] comps[i] + "/i18n/Translation-".spec_bytes(),
            p,
        )
}

/// A declared path is fetched when it serves a selected `(component,
/// architecture)` pair, is a source index (only when sources are
/// mirrored), or is a translation index.
pub open spec fn spec_relevant(
    comps: Seq<Seq<u8>>,
    archs: Seq<Seq<u8>>,
    mirror_sources: bool,
    p: Seq<u8>,
) -> bool {
    rel_binary(comps, archs, p) || (mirror_sources && rel_sources(comps, p)) || rel_i18n(comps, p)
}

fn prefix_matches(comp: &Vec<u8>, mid: &[u8], p: &Vec<u8>) -> (r: bool)
    ensures
        r == is_prefix_of(comp@ + mid@, p@),
{
    let mut pre = clone_bytes(comp);
    let mut m = slice_to_vec(mid);
    pre.append(&mut m);
    starts_with(p.as_slice(), pre.as_slice())
}

fn slice_to_vec(s: &[u8]) -> (r: Vec<u8>)
    ensures
        r@ == s@,
{
    crate::bytes::slice_to_vec_u8(s)
}

/// Decide whether a declared path is fetched for this configuration.
pub fn is_relevant(
    comps: &Vec<Vec<u8>>,
    archs: &Vec<Vec<u8>>,
    mirror_sources: bool,
    p: &Vec<u8>,
) -> (r: bool)
    ensures
        r == spec_relevant(comps.deep_view(), archs.deep_view(), mirror_sources, p@),
{
    let nc = comps.len();
    let na = archs.len();
    for i in 0..nc
        invariant
            nc == comps@.len(),
            na == archs@.len(),
            forall|a: int, b: int|
                0 <= a < i && 0 <= b < na ==> !is_prefix_of(
                    #[trigger] comps.deep_view()[a] + "/binary-".spec_bytes()
                        + #[trigger] archs.deep_view()[b] + "/".spec_bytes(),
                    p@,
                ),
    {
        for j in 0..na
            invariant
                nc == comps@.len(),
                na == archs@.len(),
                0 <= i < nc,
                forall|b: int|
                    0 <= b < j ==> !is_prefix_of(
                        comps.deep_view()[i as int] + "/binary-".spec_bytes()
                            + #[trigger] archs.deep_view()[b] + "/".spec_bytes(),
                        p@,
                    ),
                forall|a: int, b: int|
                    0 <= a < i && 0 <= b < na ==> !is_prefix_of(
                        #[trigger] comps.deep_view()[a] + "/binary-".spec_bytes()
                            + #[trigger] archs.deep_view()[b] + "/".spec_bytes(),
                        p@,
                    ),
        {
            let mut pre = clone_bytes(&comps[i]);
            let mut m = slice_to_vec("/binary-".as_bytes());
            pre.append(&mut m);
            let mut a = clone_bytes(&archs[j]);
            pre.append(&mut a);
            let mut sl = slice_to_vec("/".as_bytes());
            pre.append(&mut sl);
            if starts_with(p.as_slice(), pre.as_slice()) {
                proof {
                    assert(comps.deep_view()[i as int] == comps@[i as int]@);
                    assert(archs.deep_view()[j as int] == archs@[j as int]@);
                    assert(pre@ =~= comps.deep_view()[i as int] + "/binary-".spec_bytes()
                        + archs.deep_view()[j as int] + "/".spec_bytes());
                    assert(rel_binary(comps.deep_view(), archs.deep_view(), p@));
                }
                return true;
            }
            proof {
                assert(comps.deep_view()[i as int] == comps@[i as int]@);
                assert(archs.deep_view()[j as int] == archs@[j as int]@);
                assert(pre@ =~= comps.deep_view()[i as int] + "/binary-".spec_bytes()
                    + archs.deep_view()[j as int] + "/".spec_bytes());
            }
        }
    }
    if mirror_sources {
        for i in 0..nc
            invariant
                nc == comps@.len(),
                mirror_sources,
                forall|a: int|
                    0 <= a < i ==> !is_prefix_of(
                        #[trigger] comps.deep_view()[a] + "/source/Sources".spec_bytes(),
                        p@,
                    ),
        {
            if prefix_matches(&comps[i], "/source/Sources".as_bytes(), p) {
                proof {
                    assert(comps.deep_view()[i as int] == comps@[i as int]@);
                    assert(rel_sources(comps.deep_view(), p@));
                }
                return true;
            }
            proof {
                assert(comps.deep_view()[i as int] == comps@[i as int]@);
            }
        }
    }
    for i in 0..nc
        invariant
            nc == comps@.len(),
            forall|a: int|
                0 <= a < i ==> !is_prefix_of(
                    #[trigger] comps.deep_view()[a] + "/i18n/Translation-".spec_bytes(),
                    p@,
                ),
    {
        if prefix_matches(&comps[i], "/i18n/Translation-".as_bytes(), p) {
            proof {
                assert(comps.deep_view()[i as int] == comps@[i as int]@);
                assert(rel_i18n(comps.deep_view(), p@));
            }
            return true;
        }
        proof {
            assert(comps.deep_view()[i as int] == comps@[i as int]@);
        }
    }
    false
}

/// Keep the declared files a configuration fetches, in order.
pub open spec fn spec_relevant_files(
    files: Seq<ReleaseFileModel>,
    comps: Seq<Seq<u8>>,
    archs: Seq<Seq<u8>>,
    mirror_sources: bool,
) -> Seq<ReleaseFileModel>
    decreases files.len(),
{
    if files.len() == 0 {
        Seq::empty()
    } else {
        let rest = spec_relevant_files(files.drop_first(), comps, archs, mirror_sources);
        if spec_relevant(comps, archs, mirror_sources, files.first().path) {
            seq![files.first()] + rest
        } else {
            rest
        }
    }
}

/// Filter a descriptor's rows down to the ones this sync fetches.
pub fn relevant_files(
    info: &AptRepoReleaseInfo,
    mirror_sources: bool,
) -> (r: Vec<ReleaseFileEntry>)
    ensures
        r.deep_view() == spec_relevant_files(
            info.files.deep_view(),
            info.components.deep_view(),
            info.architectures.deep_view(),
            mirror_sources,
        ),
{
    let mut r: Vec<ReleaseFileEntry> = Vec::new();
    let n = info.files.len();
    let ghost fdv = info.files.deep_view();
    let ghost cdv = info.components.deep_view();
    let ghost adv = info.architectures.deep_view();
    proof {
        assert(fdv.skip(0) =~= fdv);
        assert(r.deep_view() + spec_relevant_files(fdv, cdv, adv, mirror_sources)
            =~~= spec_relevant_files(fdv, cdv, adv, mirror_sources));
    }
    let mut i: usize = 0;
    while i < n
        invariant
            n == info.files@.len(),
            0 <= i <= n,
            fdv == info.files.deep_view(),
            cdv == info.components.deep_view(),
            adv == info.architectures.deep_view(),
            spec_relevant_files(fdv, cdv, adv, mirror_sources) == r.deep_view()
                + spec_relevant_files(fdv.skip(i as int), cdv, adv, mirror_sources),
        decreases n - i,
    {
        let ghost rest = fdv.skip(i as int);
        proof {
            assert(rest.first() == fdv[i as int]);
            assert(fdv[i as int] == info.files@[i as int]@);
            assert(rest.drop_first() =~= fdv.skip(i + 1));
        }
        if is_relevant(&info.components, &info.architectures, mirror_sources, &info.files[i].path)
        {
            let ghost old_dv = r.deep_view();
            let e = info.files[i].duplicate();
            r.push(e);
            proof {
                assert(r.deep_view() =~~= old_dv + seq![fdv[i as int]]);
                assert(old_dv + seq![rest.first()] + spec_relevant_files(
                    rest.drop_first(),
                    cdv,
                    adv,
                    mirror_sources,
                ) =~= old_dv + (seq![rest.first()] + spec_relevant_files(
                    rest.drop_first(),
                    cdv,
                    adv,
                    mirror_sources,
                )));
            }
        }
        i = i + 1;
    }
    proof {
        assert(fdv.skip(n as int).len() == 0);
        assert(r.deep_view() =~= r.deep_view() + spec_relevant_files(
            fdv.skip(n as int),
            cdv,
            adv,
            mirror_sources,
        ));
    }
    r
}

// ---------------------------------------------------------------------
// Digest comparison
// ---------------------------------------------------------------------

/// Lower-case hex encoding of a digest.
pub open spec fn spec_hex_lower(d: Seq<u8>) -> Seq<u8>
    decreases d.len(),
{
    if d.len() == 0 {
        Seq::empty()
    } else {
        seq![
            crate::state::hex_digit((d.first() / 16) as u8),
            crate::state::hex_digit((d.first() % 16) as u8),
        ] + spec_hex_lower(d.drop_first())
    }
}

pub fn hex_lower(d: &Vec<u8>) -> (r: Vec<u8>)
    ensures
        r@ == spec_hex_lower(d@),
{
    let mut r: Vec<u8> = Vec::new();
    let n = d.len();
    proof {
        assert(d@.skip(0) =~= d@);
        assert(r@ + spec_hex_lower(d@) =~= spec_hex_lower(d@));
    }
    let mut i: usize = 0;
    while i < n
        invariant
            n == d@.len(),
            0 <= i <= n,
            spec_hex_lower(d@) == r@ + spec_hex_lower(d@.skip(i as int)),
        decreases n - i,
    {
        let ghost rest = d@.skip(i as int);
        proof {
            assert(rest.first() == d@[i as int]);
            assert(rest.drop_first() =~= d@.skip(i + 1));
        }
        let ghost old_r = r@;
        let b = d[i];
        let hi = b / 16;
        let lo = b % 16;
        r.push(if hi < 10 {
            48 + hi
        } else {
            87 + hi
        });
        r.push(if lo < 10 {
            48 + lo
        } else {
            87 + lo
        });
        proof {
            assert(r@ =~= old_r + seq![
                crate::state::hex_digit(hi),
                crate::state::hex_digit(lo),
            ]);
            assert(old_r + seq![crate::state::hex_digit(hi), crate::state::hex_digit(lo)]
                + spec_hex_lower(rest.drop_first()) =~= old_r + (seq![
                crate::state::hex_digit(hi),
                crate::state::hex_digit(lo),
            ] + spec_hex_lower(rest.drop_first())));
        }
        i = i + 1;
    }
    proof {
        assert(d@.skip(n as int).len() == 0);
        assert(r@ =~= r@ + spec_hex_lower(d@.skip(n as int)));
    }
    r
}

/// A freshly computed digest satisfies a declared hash exactly when its
/// lower-case hex encoding equals the declared value up to ASCII case.
/// On a mismatch the whole sync must fail.
pub fn digest_matches(declared_hex: &Vec<u8>, digest: &Vec<u8>) -> (r: bool)
    ensures
        r == (lower_bytes(declared_hex@) == lower_bytes(spec_hex_lower(digest@))),
{
    let actual = hex_lower(digest);
    eq_ignore_case(declared_hex.as_slice(), actual.as_slice())
}


/// What the digest backend computes for an algorithm over a byte
/// string; a digest depends on the algorithm and the bytes alone.
pub uninterp spec fn digest_of(algm: AptMetadataHashAlgm, data: Seq<u8>) -> Seq<u8>;

/// Relies on sequoia-openpgp's hash contexts (`context`, `update`,
/// `digest`): computes the digest of the bytes under the given
/// algorithm, or nothing when the backend does not offer it.
#[verifier::external_body]
fn compute_digest(algm: AptMetadataHashAlgm, data: &Vec<u8>) -> (r: Option<Vec<u8>>)
    ensures
        match r {
            Some(v) => v@ == digest_of(algm, data@),
            None => true,
        },
{
    let ha = match algm {
        AptMetadataHashAlgm::Md5 => sequoia_openpgp::types::HashAlgorithm::MD5,
        AptMetadataHashAlgm::Sha1 => sequoia_openpgp::types::HashAlgorithm::SHA1,
        AptMetadataHashAlgm::Sha256 => sequoia_openpgp::types::HashAlgorithm::SHA256,
        AptMetadataHashAlgm::Sha512 => sequoia_openpgp::types::HashAlgorithm::SHA512,
    };
    let mut ctx = match ha.context() {
        Ok(c) => c,
        Err(_) => return None,
    };
    ctx.update(data.as_slice());
    let mut digest = vec![0u8; ctx.digest_size()];
    ctx.digest(&mut digest).ok().map(|_| digest)
}

/// The declared hash is satisfied: the digest's lower-case hex encoding
/// equals the declared value up to ASCII case.
pub open spec fn spec_digest_ok(entry: ReleaseFileModel, data: Seq<u8>) -> bool {
    lower_bytes(entry.hash) == lower_bytes(spec_hex_lower(digest_of(entry.algm, data)))
}

/// Check a downloaded file against its declared hash.  `Ok` only when
/// the computed digest satisfies the declaration; the mismatch error
/// exactly when it does not; the unavailability error says nothing of
/// the bytes — the caller must fail the sync either way.
pub fn checksum_file(entry: &ReleaseFileEntry, data: &Vec<u8>) -> (r: Result<(), SyncError>)
    ensures
        match r {
            Ok(()) => spec_digest_ok(entry@, data@),
            Err(e) => (e == SyncError::ChecksumMismatch && !spec_digest_ok(entry@, data@)) || e
                == SyncError::DigestUnavailable,
        },
{
    match compute_digest(entry.algm, data) {
        Some(digest) => {
            if digest_matches(&entry.hash, &digest) {
                Ok(())
            } else {
                Err(SyncError::ChecksumMismatch)
            }
        },
        None => Err(SyncError::DigestUnavailable),
    }
}

} // verus!
