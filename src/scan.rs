//! The scan: which of the photos that a directory walk found lie within a
//! radius of a reference point.
//!
//! Walking the directory, opening the files and spreading the work over
//! threads happen outside; this module decides, for each photo, from what its
//! metadata reader returned, and gathers the paths that are in range.
use crate::distance::{distance_sq_um, in_valid_range, is_floor_sqrt, ConvertError};
use crate::gps_position::{metadata_position, GPSPosition};
use crate::metadata::MetadataField;
use crate::path_order::{insert_sorted, lemma_sorted_unique, strictly_sorted, views};
use vstd::prelude::*;

verus! {

/// The lowercase form of a text, as `str::to_lowercase` gives it.
pub uninterp spec fn lower_of(s: Seq<char>) -> Seq<char>;

/// Relies on `str::to_lowercase`: the lowercase form of a text depends on its
/// characters alone.
#[verifier::external_body]
fn lowercase(s: &str) -> (r: String)
    ensures
        r@ == lower_of(s@),
{
    s.to_lowercase()
}

/// `s` ends in ".jpg".
pub open spec fn ends_with_jpg(s: Seq<char>) -> bool {
    s.len() >= 4 && s.subrange(s.len() - 4, s.len() as int) == seq!['.', 'j', 'p', 'g']
}

/// Whether a file name, already in lowercase, ends in ".jpg".
pub fn has_jpg_ending(lowered: &str) -> (r: bool)
    ensures
        r == ends_with_jpg(lowered@),
{
    let n = lowered.unicode_len();
    if n < 4 {
        return false;
    }
    let a = lowered.get_char(n - 4);
    let b = lowered.get_char(n - 3);
    let c = lowered.get_char(n - 2);
    let d = lowered.get_char(n - 1);
    let ghost tail = lowered@.subrange(n - 4, n as int);
    assert(tail[0] == a && tail[1] == b && tail[2] == c && tail[3] == d);
    if a == '.' && b == 'j' && c == 'p' && d == 'g' {
        assert(tail =~= seq!['.', 'j', 'p', 'g']);
        true
    } else {
        false
    }
}

/// Whether a directory entry is a photo to look at: a regular file whose name,
/// in lowercase, ends in ".jpg".
pub fn is_jpg(is_file: bool, file_name: &str) -> (r: bool)
    ensures
        r == (is_file && ends_with_jpg(lower_of(file_name@))),
{
    let lowered = lowercase(file_name);
    let right_ending = has_jpg_ending(lowered.as_str());
    is_file && right_ending
}

/// A photo that the directory walk found, with the records that its metadata
/// reader returned: `None` where the file could not be read or has no
/// metadata section.
#[derive(Debug, Clone)]
pub struct ScanCandidate {
    pub path: String,
    pub metadata: Option<Vec<MetadataField>>,
}

/// `p` lies closer to `point` than `max` micrometres.
pub open spec fn within(p: GPSPosition, point: GPSPosition, max: int) -> bool {
    in_valid_range(p, point) && distance_sq_um(p, point) < max * max
}

/// The photo has a position, and it lies within `max` micrometres of `point`.
pub open spec fn candidate_in_range(point: GPSPosition, max: int, c: ScanCandidate) -> bool {
    match metadata_position(c.metadata) {
        Some(p) => within(p, point, max),
        None => false,
    }
}

/// The paths of the candidates whose flag is set.
pub open spec fn flagged_paths(cs: Seq<ScanCandidate>, flags: Seq<bool>) -> Set<Seq<char>> {
    Set::new(|x: Seq<char>| exists|i: int| 0 <= i < cs.len() && flags[i] && #[trigger] cs[i].path@ == x)
}

/// The paths of the candidates in range.
pub open spec fn in_range_paths(point: GPSPosition, max: int, cs: Seq<ScanCandidate>) -> Set<Seq<char>> {
    Set::new(
        |x: Seq<char>|
            exists|i: int|
                0 <= i < cs.len() && candidate_in_range(point, max, cs[i]) && #[trigger] cs[i].path@
                    == x,
    )
}

/// `r` is the report on the paths `paths`: each once, in order; or
/// `NoImagesFound` where there were no candidates.
pub open spec fn report_of(n: int, paths: Set<Seq<char>>, r: Result<Vec<String>, ConvertError>) -> bool {
    if n == 0 {
        r == Err::<Vec<String>, ConvertError>(ConvertError::NoImagesFound)
    } else {
        match r {
            Ok(v) => strictly_sorted(views(v@)) && views(v@).to_set() == paths,
            Err(_) => false,
        }
    }
}

/// A distance under `max` is a square under `max * max`.
proof fn lemma_below_max(d: int, n: int, max: int)
    requires
        is_floor_sqrt(d, n),
        0 <= max,
    ensures
        (d < max) == (n < max * max),
{
    if d < max {
        assert((d + 1) * (d + 1) <= max * max) by (nonlinear_arith)
            requires
                0 <= d,
                d + 1 <= max,
        ;
    } else {
        assert(max * max <= d * d) by (nonlinear_arith)
            requires
                0 <= max <= d,
        ;
    }
}

/// Whether the photo lies within `max_distance` micrometres of `point`.
///
/// A photo without a position, and one too far for the distance to be
/// computed, is not in range; no photo stops the scan.
pub fn check_image(point: &GPSPosition, max_distance: u64, candidate: &ScanCandidate) -> (r: bool)
    ensures
        r == candidate_in_range(*point, max_distance as int, *candidate),
{
    match GPSPosition::from_image_path(&candidate.path, &candidate.metadata) {
        Err(_) => false,
        Ok(pos) => match pos.distance(point) {
            Err(_) => false,
            Ok(d) => {
                proof {
                    lemma_below_max(d as int, distance_sq_um(pos, *point), max_distance as int);
                }
                d < max_distance
            },
        },
    }
}

/// The paths of the flagged candidates, each once, in order.
fn gather(candidates: &Vec<ScanCandidate>, in_range: &Vec<bool>) -> (r: Vec<String>)
    requires
        in_range@.len() == candidates@.len(),
    ensures
        strictly_sorted(views(r@)),
        views(r@).to_set() == flagged_paths(candidates@, in_range@),
{
    let mut out: Vec<String> = Vec::new();
    let mut i: usize = 0;
    assert(views(out@).to_set() =~= Set::<Seq<char>>::empty());
    assert(flagged_paths(candidates@.subrange(0, 0), in_range@.subrange(0, 0)) =~= Set::<
        Seq<char>,
    >::empty());
    while i < candidates.len()
        invariant
            i <= candidates@.len(),
            in_range@.len() == candidates@.len(),
            strictly_sorted(views(out@)),
            views(out@).to_set() == flagged_paths(
                candidates@.subrange(0, i as int),
                in_range@.subrange(0, i as int),
            ),
        decreases candidates@.len() - i,
    {
        let ghost before = flagged_paths(
            candidates@.subrange(0, i as int),
            in_range@.subrange(0, i as int),
        );
        let ghost cs = candidates@.subrange(0, i + 1);
        let ghost fs = in_range@.subrange(0, i + 1);
        if in_range[i] {
            insert_sorted(&mut out, candidates[i].path.clone());
            assert(flagged_paths(cs, fs) =~= before.insert(candidates@[i as int].path@)) by {
                assert(cs[i as int] == candidates@[i as int]);
                assert forall|x: Seq<char>| #[trigger] flagged_paths(cs, fs).contains(x) implies before.insert(
                    candidates@[i as int].path@,
                ).contains(x) by {
                    let k = choose|k: int| 0 <= k < cs.len() && fs[k] && #[trigger] cs[k].path@ == x;
                    if k < i {
                        assert(candidates@.subrange(0, i as int)[k] == cs[k]);
                        assert(in_range@.subrange(0, i as int)[k] == fs[k]);
                    }
                }
                assert forall|x: Seq<char>| before.insert(candidates@[i as int].path@).contains(
                    x,
                ) implies #[trigger] flagged_paths(cs, fs).contains(x) by {
                    if before.contains(x) {
                        let k = choose|k: int|
                            0 <= k < i && in_range@.subrange(0, i as int)[k]
                                && #[trigger] candidates@.subrange(0, i as int)[k].path@ == x;
                        assert(cs[k] == candidates@.subrange(0, i as int)[k]);
                        assert(fs[k] == in_range@.subrange(0, i as int)[k]);
                    } else {
                        assert(cs[i as int].path@ == x);
                    }
                }
            }
        } else {
            assert(flagged_paths(cs, fs) =~= before) by {
                assert forall|x: Seq<char>| #[trigger] flagged_paths(cs, fs).contains(x) implies before.contains(x) by {
                    let k = choose|k: int| 0 <= k < cs.len() && fs[k] && #[trigger] cs[k].path@ == x;
                    assert(k != i);
                    assert(candidates@.subrange(0, i as int)[k] == cs[k]);
                    assert(in_range@.subrange(0, i as int)[k] == fs[k]);
                }
                assert forall|x: Seq<char>| before.contains(x) implies #[trigger] flagged_paths(cs, fs).contains(x) by {
                    let k = choose|k: int|
                        0 <= k < i && in_range@.subrange(0, i as int)[k]
                            && #[trigger] candidates@.subrange(0, i as int)[k].path@ == x;
                    assert(cs[k] == candidates@.subrange(0, i as int)[k]);
                    assert(fs[k] == in_range@.subrange(0, i as int)[k]);
                }
            }
        }
        i = i + 1;
    }
    assert(candidates@.subrange(0, i as int) == candidates@);
    assert(in_range@.subrange(0, i as int) == in_range@);
    out
}

/// The report of a scan whose verdicts were reached apart, one per candidate:
/// the paths of the candidates in range, each once, in order; or
/// `NoImagesFound` where there were no candidates.
pub fn gather_in_range(candidates: &Vec<ScanCandidate>, in_range: &Vec<bool>) -> (r: Result<
    Vec<String>,
    ConvertError,
>)
    requires
        in_range@.len() == candidates@.len(),
    ensures
        report_of(candidates@.len() as int, flagged_paths(candidates@, in_range@), r),
{
    if candidates.len() == 0 {
        return Err(ConvertError::NoImagesFound);
    }
    Ok(gather(candidates, in_range))
}

/// What `run_sequential` returns.
pub open spec fn scan_result(
    reference: Seq<char>,
    max: int,
    cs: Seq<ScanCandidate>,
    r: Result<Vec<String>, ConvertError>,
) -> bool {
    match crate::coordinate_text::parse_spec(reference) {
        None => match r {
            Err(ConvertError::UnrecognisedString { input }) => input@ == reference,
            _ => false,
        },
        Some((lat, lon)) => report_of(
            cs.len() as int,
            in_range_paths(GPSPosition { lat: lat as i64, lon: lon as i64 }, max, cs),
            r,
        ),
    }
}

/// Scan the candidates one at a time, in the order of the walk.
///
/// The reference text is parsed first; where it is not a coordinate pair the
/// scan stops there. Otherwise the report holds the path of each photo that
/// lies closer to the reference than `max_distance` micrometres, each once and
/// in order, or `NoImagesFound` where there were no candidates.
pub fn run_sequential(reference: &str, max_distance: u64, candidates: &Vec<ScanCandidate>) -> (r:
    Result<Vec<String>, ConvertError>)
    ensures
        scan_result(reference@, max_distance as int, candidates@, r),
{
    let point = match GPSPosition::parse_from_string(reference) {
        Ok(p) => p,
        Err(e) => {
            return Err(e);
        },
    };
    let mut flags: Vec<bool> = Vec::new();
    let mut i: usize = 0;
    while i < candidates.len()
        invariant
            i <= candidates@.len(),
            flags@.len() == i,
            forall|j: int|
                0 <= j < i ==> #[trigger] flags@[j] == candidate_in_range(
                    point,
                    max_distance as int,
                    candidates@[j],
                ),
        decreases candidates@.len() - i,
    {
        flags.push(check_image(&point, max_distance, &candidates[i]));
        i = i + 1;
    }
    proof {
        lemma_flags_give_in_range(point, max_distance as int, candidates@, flags@);
    }
    gather_in_range(candidates, &flags)
}

/// Flags that hold each candidate's verdict single out the paths in range.
proof fn lemma_flags_give_in_range(
    point: GPSPosition,
    max: int,
    cs: Seq<ScanCandidate>,
    flags: Seq<bool>,
)
    requires
        flags.len() == cs.len(),
        forall|j: int| 0 <= j < cs.len() ==> #[trigger] flags[j] == candidate_in_range(point, max, cs[j]),
    ensures
        flagged_paths(cs, flags) == in_range_paths(point, max, cs),
{
    assert forall|x: Seq<char>| #[trigger] flagged_paths(cs, flags).contains(x) == in_range_paths(point, max, cs).contains(x) by {
        if flagged_paths(cs, flags).contains(x) {
            let k = choose|k: int| 0 <= k < cs.len() && flags[k] && #[trigger] cs[k].path@ == x;
            assert(candidate_in_range(point, max, cs[k]));
        }
        if in_range_paths(point, max, cs).contains(x) {
            let k = choose|k: int|
                0 <= k < cs.len() && candidate_in_range(point, max, cs[k]) && #[trigger] cs[k].path@ == x;
            assert(flags[k]);
        }
    }
    assert(flagged_paths(cs, flags) =~= in_range_paths(point, max, cs));
}

/// A scan whose verdicts were reached apart, in any order and by any number
/// of workers, reports what the sequential scan reports, as long as each
/// verdict is `check_image`'s for its candidate.
pub proof fn lemma_parallel_matches_sequential(
    reference: Seq<char>,
    max: int,
    cs: Seq<ScanCandidate>,
    flags: Seq<bool>,
    sequential: Result<Vec<String>, ConvertError>,
    parallel: Result<Vec<String>, ConvertError>,
)
    requires
        crate::coordinate_text::parse_spec(reference) is Some,
        flags.len() == cs.len(),
        forall|j: int|
            0 <= j < cs.len() ==> #[trigger] flags[j] == candidate_in_range(
                GPSPosition {
                    lat: crate::coordinate_text::parse_spec(reference).unwrap().0 as i64,
                    lon: crate::coordinate_text::parse_spec(reference).unwrap().1 as i64,
                },
                max,
                cs[j],
            ),
        scan_result(reference, max, cs, sequential),
        report_of(cs.len() as int, flagged_paths(cs, flags), parallel),
    ensures
        match (sequential, parallel) {
            (Ok(a), Ok(b)) => views(a@) == views(b@),
            (Err(a), Err(b)) => a == b && a == ConvertError::NoImagesFound,
            _ => false,
        },
{
    let (lat, lon) = crate::coordinate_text::parse_spec(reference).unwrap();
    let point = GPSPosition { lat: lat as i64, lon: lon as i64 };
    lemma_flags_give_in_range(point, max, cs, flags);
    if let (Ok(a), Ok(b)) = (sequential, parallel) {
        lemma_sorted_unique(views(a@), views(b@));
    }
}

/// A photo whose file could not be read, or has no metadata section, is left
/// out of the report, and the scan still succeeds.
pub proof fn lemma_photo_without_metadata_left_out(
    reference: Seq<char>,
    max: int,
    cs: Seq<ScanCandidate>,
    k: int,
    r: Result<Vec<String>, ConvertError>,
)
    requires
        crate::coordinate_text::parse_spec(reference) is Some,
        0 <= k < cs.len(),
        cs[k].metadata is None,
        forall|j: int| 0 <= j < cs.len() && j != k ==> #[trigger] cs[j].path@ != cs[k].path@,
        scan_result(reference, max, cs, r),
    ensures
        r is Ok,
        !views(r->Ok_0@).to_set().contains(cs[k].path@),
{
    let (lat, lon) = crate::coordinate_text::parse_spec(reference).unwrap();
    let point = GPSPosition { lat: lat as i64, lon: lon as i64 };
    if in_range_paths(point, max, cs).contains(cs[k].path@) {
        let i = choose|i: int|
            0 <= i < cs.len() && candidate_in_range(point, max, cs[i]) && #[trigger] cs[i].path@
                == cs[k].path@;
        assert(i == k);
    }
}

} // verus!
