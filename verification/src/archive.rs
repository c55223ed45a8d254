//! What unpacking an archive puts where.

use vstd::prelude::*;
use vstd::string::*;
use std::io::{Cursor, Read};
use zip::ZipArchive;
use crate::text;

verus! {

/// A row of bytes that is read from front to back.
#[verifier::external_type_specification]
#[verifier::external_body]
#[verifier::reject_recursive_types(T)]
pub struct ExCursor<T>(std::io::Cursor<T>);

/// An archive that is being read.
#[verifier::external_type_specification]
#[verifier::external_body]
#[verifier::reject_recursive_types(R)]
pub struct ExZipArchive<R>(zip::ZipArchive<R>);

/// What an archive holds, file by file: the name and the contents, or why they cannot be read, or
/// why the file cannot be opened at all.
pub uninterp spec fn entries(a: ZipArchive<Cursor<Vec<u8>>>) -> Seq<
    (Seq<char>, Result<Result<Seq<u8>, Seq<char>>, Seq<char>>),
>;

/// What an archive of the given bytes holds, or why they are no archive.
pub uninterp spec fn zip_entries(bytes: Seq<u8>) -> Result<
    Seq<(Seq<char>, Result<Result<Seq<u8>, Seq<char>>, Seq<char>>)>,
    Seq<char>,
>;

/// `zip::ZipArchive::new`: opens an archive by its directory. Whether it can be opened, what it
/// then holds, and what the error says, depends on the bytes alone.
#[verifier::external_body]
fn open_archive(bytes: Vec<u8>) -> (out: Result<ZipArchive<Cursor<Vec<u8>>>, String>)
    ensures
        match out {
            Ok(a) => zip_entries(bytes@) matches Ok(files) && files == entries(a),
            Err(e) => zip_entries(bytes@) matches Err(why) && why == e@,
        },
{
    ZipArchive::new(Cursor::new(bytes)).map_err(|e| e.to_string())
}

/// `zip::ZipArchive::len`: how many files the archive holds.
#[verifier::external_body]
fn archive_len(a: &ZipArchive<Cursor<Vec<u8>>>) -> (out: usize)
    ensures
        out == entries(*a).len(),
{
    a.len()
}

/// A name that ends in a slash stands for a directory.
pub open spec fn is_dir_name(name: Seq<char>) -> bool {
    name.len() > 0 && (name.last() == '/' || name.last() == '\\')
}

/// How deep a path leads, part by part; none where it leads above its beginning on the way.
pub open spec fn depth(parts: Seq<Seq<char>>) -> Option<nat>
    decreases parts.len(),
{
    if parts.len() == 0 {
        Some(0)
    } else {
        match depth(parts.drop_last()) {
            None => None,
            Some(d) => if parts.last() == ".."@ {
                if d == 0 {
                    None
                } else {
                    Some((d - 1) as nat)
                }
            } else if parts.last() == ""@ || parts.last() == "."@ {
                Some(d)
            } else {
                Some(d + 1)
            },
        }
    }
}

/// Names that may be put in place on any machine.
pub open spec fn may_keep(name: Seq<char>) -> bool {
    !name.contains('\0') && !(name.len() > 0 && name[0] == '/')
}

/// Names that every machine reads alike: with no separator but the slash.
pub open spec fn is_plain(name: Seq<char>) -> bool {
    !name.contains('\\') && !name.contains(':')
}

/// Plain names that stay within the place that the archive is unpacked to.
pub open spec fn stays_inside(name: Seq<char>) -> bool {
    may_keep(name) && depth(text::pieces(name, '/')) is Some
}

/// `zip::ZipArchive::by_index`, with the name that the file has in the archive
/// (`zip::read::ZipFile::name`) and whether it stays within the place that the archive is
/// unpacked to (`zip::read::ZipFile::enclosed_name`, which then gives the name as a path). On
/// every machine a name with a zero in it or with a slash at its front does not; a plain name does
/// where, besides, it never leads above its beginning. Of other names the machine decides, and
/// nothing more is said here.
#[verifier::external_body]
fn entry_head(a: &mut ZipArchive<Cursor<Vec<u8>>>, i: usize) -> (out: Result<
    (String, bool),
    String,
>)
    requires
        i < entries(*old(a)).len(),
    ensures
        entries(*final(a)) == entries(*old(a)),
        match out {
            Ok((name, enclosed)) => {
                &&& name@ == entries(*old(a))[i as int].0
                &&& entries(*old(a))[i as int].1 is Ok
                &&& enclosed ==> may_keep(name@)
                &&& is_plain(name@) ==> enclosed == stays_inside(name@)
            },
            Err(e) => entries(*old(a))[i as int].1 matches Err(why) && why == e@,
        },
{
    let file = a.by_index(i).map_err(|e| e.to_string())?;
    Ok((file.name().to_string(), file.enclosed_name().is_some()))
}

/// `zip::ZipArchive::by_index` and reading the file to its end.
#[verifier::external_body]
fn entry_data(a: &mut ZipArchive<Cursor<Vec<u8>>>, i: usize) -> (out: Result<Vec<u8>, String>)
    requires
        i < entries(*old(a)).len(),
    ensures
        entries(*final(a)) == entries(*old(a)),
        match out {
            Ok(data) => entries(*old(a))[i as int].1 matches Ok(Ok(d)) && d == data@,
            Err(e) => match entries(*old(a))[i as int].1 {
                Ok(Ok(_)) => false,
                Ok(Err(why)) => why == e@,
                Err(why) => why == e@,
            },
        },
{
    let mut file = a.by_index(i).map_err(|e| e.to_string())?;
    let mut data: Vec<u8> = Vec::new();
    file.read_to_end(&mut data).map_err(|e| e.to_string())?;
    Ok(data)
}

/// One step of unpacking.
pub enum ExtractStep {
    /// A directory is made.
    MakeDir(String),
    /// A file is written, in a directory that is made if need be.
    WriteFile(String, Vec<u8>),
}

/// A step of unpacking, over sequences.
pub enum Step {
    MakeDir(Seq<char>),
    WriteFile(Seq<char>, Seq<u8>),
}

impl View for ExtractStep {
    type V = Step;

    open spec fn view(&self) -> Step {
        match self {
            ExtractStep::MakeDir(name) => Step::MakeDir(name@),
            ExtractStep::WriteFile(name, data) => Step::WriteFile(name@, data@),
        }
    }
}

/// The steps of a list.
pub open spec fn step_views(v: Seq<ExtractStep>) -> Seq<Step> {
    v.map_values(|s: ExtractStep| s@)
}

/// What is known of a file of an archive: its name, whether it stays within the place that the
/// archive is unpacked to, and its contents, or why they cannot be read.
pub struct FoundFile {
    pub name: String,
    pub enclosed: bool,
    pub data: Result<Vec<u8>, String>,
}

/// A file of an archive, over sequences.
pub struct Found {
    pub name: Seq<char>,
    pub enclosed: bool,
    pub data: Result<Seq<u8>, Seq<char>>,
}

impl View for FoundFile {
    type V = Found;

    open spec fn view(&self) -> Found {
        Found {
            name: self.name@,
            enclosed: self.enclosed,
            data: match self.data {
                Ok(d) => Ok(d@),
                Err(e) => Err(e@),
            },
        }
    }
}

/// What is done about one file: nothing where it leads out of the place that the archive is
/// unpacked to; else a directory is made or the file is written. Only a file that is to be written
/// has to be readable.
pub open spec fn step_for(f: Found) -> Result<Option<Step>, Seq<char>> {
    if !f.enclosed {
        Ok(None)
    } else if is_dir_name(f.name) {
        Ok(Some(Step::MakeDir(f.name)))
    } else {
        match f.data {
            Ok(d) => Ok(Some(Step::WriteFile(f.name, d))),
            Err(e) => Err(e),
        }
    }
}

/// What is done about a file that was to be opened.
pub open spec fn outcome(f: Result<Found, Seq<char>>) -> Result<Option<Step>, Seq<char>> {
    match f {
        Ok(found) => step_for(found),
        Err(e) => Err(e),
    }
}

/// The steps of a row of outcomes, in their order, or the first failure.
pub open spec fn collected(outcomes: Seq<Result<Option<Step>, Seq<char>>>) -> Result<
    Seq<Step>,
    Seq<char>,
>
    decreases outcomes.len(),
{
    if outcomes.len() == 0 {
        Ok(seq![])
    } else {
        match (collected(outcomes.drop_last()), outcomes.last()) {
            (Err(e), _) => Err(e),
            (Ok(_), Err(e)) => Err(e),
            (Ok(steps), Ok(None)) => Ok(steps),
            (Ok(steps), Ok(Some(step))) => Ok(steps.push(step)),
        }
    }
}

/// A file over sequences, or why it could not be opened.
pub open spec fn found_view(f: Result<FoundFile, String>) -> Result<Found, Seq<char>> {
    match f {
        Ok(found) => Ok(found@),
        Err(e) => Err(e@),
    }
}

/// The outcomes of a list of files.
pub open spec fn outcomes_of(files: Seq<Result<FoundFile, String>>) -> Seq<
    Result<Option<Step>, Seq<char>>,
> {
    files.map_values(|f: Result<FoundFile, String>| outcome(found_view(f)))
}

/// The steps that unpack an archive, over sequences, or the error.
pub open spec fn steps_view(out: Result<Vec<ExtractStep>, String>) -> Result<Seq<Step>, Seq<char>> {
    match out {
        Ok(steps) => Ok(step_views(steps@)),
        Err(e) => Err(e@),
    }
}

fn names_dir(name: &str) -> (out: bool)
    ensures
        out == is_dir_name(name@),
{
    let x: Vec<char> = text::chars_of(name);
    x.len() > 0 && (x[x.len() - 1] == '/' || x[x.len() - 1] == '\\')
}

/// What is done about one file of an archive.
pub fn place_file(file: FoundFile) -> (out: Result<Option<ExtractStep>, String>)
    ensures
        match (out, step_for(file@)) {
            (Ok(Some(a)), Ok(Some(b))) => a@ == b,
            (Ok(None), Ok(None)) => true,
            (Err(a), Err(b)) => a@ == b,
            _ => false,
        },
{
    if !file.enclosed {
        return Ok(None);
    }
    if names_dir(file.name.as_str()) {
        return Ok(Some(ExtractStep::MakeDir(file.name)));
    }
    match file.data {
        Ok(data) => Ok(Some(ExtractStep::WriteFile(file.name, data))),
        Err(e) => Err(e),
    }
}

/// The steps that put the files of an archive in their places, in their order, or the first
/// failure.
pub fn place_files(files: Vec<Result<FoundFile, String>>) -> (out: Result<
    Vec<ExtractStep>,
    String,
>)
    ensures
        steps_view(out) == collected(outcomes_of(files@)),
{
    let ghost all = outcomes_of(files@);
    let ghost given = files@;
    let mut out: Vec<ExtractStep> = Vec::new();
    assert(step_views(out@) =~= Seq::empty());
    for file in it: files.into_iter()
        invariant
            it.seq() == given,
            all == outcomes_of(given),
            collected(all.take(it.index() as int)) matches Ok(steps) && steps == step_views(out@),
    {
        let ghost i = it.index() as int;
        proof {
            assert(all.take(i + 1).drop_last() =~= all.take(i));
            assert(all.take(i + 1).last() == outcome(found_view(file)));
        }
        match file {
            Err(e) => {
                proof {
                    lemma_failed(all, i + 1);
                }
                return Err(e);
            },
            Ok(found) => match place_file(found) {
                Err(e) => {
                    proof {
                        lemma_failed(all, i + 1);
                    }
                    return Err(e);
                },
                Ok(None) => {},
                Ok(Some(step)) => {
                    assert(step_views(out@.push(step)) =~= step_views(out@).push(step@));
                    out.push(step);
                },
            },
        }
    }
    assert(all.take(all.len() as int) =~= all);
    Ok(out)
}

/// The first failure is the failure of the whole.
proof fn lemma_failed(outcomes: Seq<Result<Option<Step>, Seq<char>>>, k: int)
    requires
        0 <= k <= outcomes.len(),
        collected(outcomes.take(k)) is Err,
    ensures
        collected(outcomes) == collected(outcomes.take(k)),
    decreases outcomes.len(),
{
    if k < outcomes.len() {
        assert(outcomes.drop_last().take(k) =~= outcomes.take(k));
        lemma_failed(outcomes.drop_last(), k);
    } else {
        assert(outcomes.take(k) =~= outcomes);
    }
}

// ---- unpacking ----

/// A file of an archive where it is known whether it stays inside.
pub open spec fn found(
    e: (Seq<char>, Result<Result<Seq<u8>, Seq<char>>, Seq<char>>),
    kept: bool,
) -> Result<Found, Seq<char>> {
    match e.1 {
        Ok(data) => Ok(Found { name: e.0, enclosed: kept, data }),
        Err(why) => Err(why),
    }
}

/// The steps that unpack the files of an archive, or the first failure; `kept` says which of them
/// stay within the place that the archive is unpacked to.
pub open spec fn unpacked(
    files: Seq<(Seq<char>, Result<Result<Seq<u8>, Seq<char>>, Seq<char>>)>,
    kept: Seq<bool>,
) -> Result<Seq<Step>, Seq<char>> {
    collected(Seq::new(files.len(), |i: int| outcome(found(files[i], kept[i]))))
}

/// What a machine can find of which files stay inside.
pub open spec fn possible(
    files: Seq<(Seq<char>, Result<Result<Seq<u8>, Seq<char>>, Seq<char>>)>,
    kept: Seq<bool>,
) -> bool {
    &&& kept.len() == files.len()
    &&& forall|i: int| 0 <= i < files.len() && #[trigger] kept[i] ==> may_keep(files[i].0)
    &&& forall|i: int|
        0 <= i < files.len() && is_plain((#[trigger] files[i]).0) ==> kept[i] == stays_inside(
            files[i].0,
        )
}

/// The steps that unpack an archive. A file whose name leads out of the place that it is unpacked
/// to is passed over; which names do, the machine decides. A file that cannot be opened, or that
/// is to be written and cannot be read, has the whole archive refused.
pub fn extract_archive(bytes: Vec<u8>) -> (out: Result<Vec<ExtractStep>, String>)
    ensures
        match zip_entries(bytes@) {
            Err(why) => steps_view(out) == Err::<Seq<Step>, Seq<char>>(
                "Invalid extension archive: "@ + why,
            ),
            Ok(files) => exists|kept: Seq<bool>| #[trigger]
                possible(files, kept) && steps_view(out) == unpacked(files, kept),
        },
{
    let mut a: ZipArchive<Cursor<Vec<u8>>> = match open_archive(bytes) {
        Ok(a) => a,
        Err(e) => {
            return Err(text::concat2("Invalid extension archive: ", e.as_str()));
        },
    };
    let ghost files = entries(a);
    let n: usize = archive_len(&a);
    let mut all: Vec<Result<FoundFile, String>> = Vec::new();
    let ghost mut kept: Seq<bool> = seq![];
    for i in 0..n
        invariant
            n == files.len(),
            entries(a) == files,
            kept.len() == i,
            all@.len() == i,
            forall|k: int|
                0 <= k < i ==> outcome(found_view(#[trigger] all@[k])) == outcome(
                    found(files[k], kept[k]),
                ),
            forall|k: int| 0 <= k < i && #[trigger] kept[k] ==> may_keep(files[k].0),
            forall|k: int|
                0 <= k < i && is_plain((#[trigger] files[k]).0) ==> kept[k] == stays_inside(
                    files[k].0,
                ),
    {
        let ghost before = kept;
        match entry_head(&mut a, i) {
            Ok((name, enclosed)) => {
                proof {
                    kept = before.push(enclosed);
                }
                let data: Result<Vec<u8>, String> = if enclosed && !names_dir(name.as_str()) {
                    entry_data(&mut a, i)
                } else {
                    Ok(Vec::new())
                };
                let file: FoundFile = FoundFile { name, enclosed, data };
                all.push(Ok(file));
            },
            Err(e) => {
                proof {
                    kept = before.push(stays_inside(files[i as int].0));
                }
                all.push(Err(e));
            },
        }
        assert(outcome(found_view(all@[i as int])) == outcome(found(files[i as int], kept[i as int])));
        assert forall|k: int| 0 <= k < i implies kept[k] == #[trigger] before[k] by {}
    }
    assert(possible(files, kept));
    assert(outcomes_of(all@) =~= Seq::new(
        files.len(),
        |i: int| outcome(found(files[i], kept[i])),
    ));
    place_files(all)
}

// ---- laws ----

/// The name that a step writes to.
pub open spec fn step_name(s: Step) -> Seq<char> {
    match s {
        Step::MakeDir(name) => name,
        Step::WriteFile(name, _) => name,
    }
}

proof fn lemma_collected_from(outcomes: Seq<Result<Option<Step>, Seq<char>>>, k: int)
    requires
        collected(outcomes) is Ok,
        0 <= k < (collected(outcomes)->Ok_0).len(),
    ensures
        exists|i: int|
            0 <= i < outcomes.len() && (#[trigger] outcomes[i] matches Ok(Some(s)) && s == (
            collected(outcomes)->Ok_0)[k]),
    decreases outcomes.len(),
{
    let front = outcomes.drop_last();
    let n = outcomes.len() - 1;
    if k < (collected(front)->Ok_0).len() {
        lemma_collected_from(front, k);
        let i = choose|i: int|
            0 <= i < front.len() && (#[trigger] front[i] matches Ok(Some(s)) && s == (collected(
                front,
            )->Ok_0)[k]);
        assert(outcomes[i] == front[i]);
    } else {
        assert(outcomes[n] == outcomes.last());
    }
}

proof fn lemma_collected_all(outcomes: Seq<Result<Option<Step>, Seq<char>>>, i: int)
    requires
        collected(outcomes) is Ok,
        0 <= i < outcomes.len(),
    ensures
        outcomes[i] is Ok,
        outcomes[i] matches Ok(Some(s)) ==> (collected(outcomes)->Ok_0).contains(s),
    decreases outcomes.len(),
{
    let front = outcomes.drop_last();
    let steps = collected(outcomes)->Ok_0;
    if i == outcomes.len() - 1 {
        if let Ok(Some(s)) = outcomes[i] {
            assert(steps[steps.len() - 1] == s);
        }
    } else {
        lemma_collected_all(front, i);
        if let Ok(Some(s)) = outcomes[i] {
            let before = collected(front)->Ok_0;
            let k = before.index_of(s);
            assert(steps[k] == s);
        }
    }
}

proof fn lemma_collected_fails(outcomes: Seq<Result<Option<Step>, Seq<char>>>)
    requires
        collected(outcomes) is Err,
    ensures
        exists|i: int|
            0 <= i < outcomes.len() && (#[trigger] outcomes[i] matches Err(e) && e == collected(
                outcomes,
            )->Err_0),
    decreases outcomes.len(),
{
    let front = outcomes.drop_last();
    if collected(front) is Err {
        lemma_collected_fails(front);
        let i = choose|i: int|
            0 <= i < front.len() && (#[trigger] front[i] matches Err(e) && e == collected(
                front,
            )->Err_0);
        assert(outcomes[i] == front[i]);
    } else {
        assert(outcomes[outcomes.len() - 1] == outcomes.last());
    }
}

/// Unpacking never writes to a name that begins with a slash or has a zero in it, nor to a plain
/// name that leads out of the place that the archive is unpacked to.
pub proof fn law_steps_stay_inside(
    files: Seq<(Seq<char>, Result<Result<Seq<u8>, Seq<char>>, Seq<char>>)>,
    kept: Seq<bool>,
    k: int,
)
    requires
        possible(files, kept),
        unpacked(files, kept) is Ok,
        0 <= k < (unpacked(files, kept)->Ok_0).len(),
    ensures
        may_keep(step_name((unpacked(files, kept)->Ok_0)[k])),
        is_plain(step_name((unpacked(files, kept)->Ok_0)[k])) ==> stays_inside(
            step_name((unpacked(files, kept)->Ok_0)[k]),
        ),
{
    let outs = Seq::new(files.len(), |i: int| outcome(found(files[i], kept[i])));
    lemma_collected_from(outs, k);
    let i = choose|i: int|
        0 <= i < outs.len() && (#[trigger] outs[i] matches Ok(Some(s)) && s == (collected(
            outs,
        )->Ok_0)[k]);
    assert(outs[i] == outcome(found(files[i], kept[i])));
    assert(kept[i]);
    assert(step_name((unpacked(files, kept)->Ok_0)[k]) == files[i].0);
}

/// Unpacking leaves out no file with a plain name that stays inside: its directory is made, or it
/// is written as it is in the archive.
pub proof fn law_files_are_unpacked(
    files: Seq<(Seq<char>, Result<Result<Seq<u8>, Seq<char>>, Seq<char>>)>,
    kept: Seq<bool>,
    i: int,
)
    requires
        possible(files, kept),
        unpacked(files, kept) is Ok,
        0 <= i < files.len(),
        is_plain(files[i].0),
        stays_inside(files[i].0),
    ensures
        is_dir_name(files[i].0) ==> (unpacked(files, kept)->Ok_0).contains(
            Step::MakeDir(files[i].0),
        ),
        !is_dir_name(files[i].0) ==> (files[i].1 matches Ok(Ok(data)) && (unpacked(
            files,
            kept,
        )->Ok_0).contains(Step::WriteFile(files[i].0, data))),
{
    let outs = Seq::new(files.len(), |i: int| outcome(found(files[i], kept[i])));
    assert(outs[i] == outcome(found(files[i], kept[i])));
    lemma_collected_all(outs, i);
}

/// A file that has a whole archive refused, with what the error says.
pub open spec fn fails_with(
    e: (Seq<char>, Result<Result<Seq<u8>, Seq<char>>, Seq<char>>),
    kept: bool,
    why: Seq<char>,
) -> bool {
    match e.1 {
        Err(w) => w == why,
        Ok(Err(w)) => w == why && kept && !is_dir_name(e.0),
        Ok(Ok(_)) => false,
    }
}

/// An archive is refused for a file that cannot be opened, or for one that stays inside, is no
/// directory and cannot be read; never for a file that is passed over or a directory whose
/// contents cannot be read.
pub proof fn law_refused_for_cause(
    files: Seq<(Seq<char>, Result<Result<Seq<u8>, Seq<char>>, Seq<char>>)>,
    kept: Seq<bool>,
)
    ensures
        unpacked(files, kept) matches Err(why) ==> exists|i: int|
            0 <= i < files.len() && fails_with(#[trigger] files[i], kept[i], why),
        unpacked(files, kept) is Ok ==> forall|i: int, why: Seq<char>|
            0 <= i < files.len() ==> !#[trigger] fails_with(files[i], kept[i], why),
{
    let outs = Seq::new(files.len(), |i: int| outcome(found(files[i], kept[i])));
    match unpacked(files, kept) {
        Err(why) => {
            lemma_collected_fails(outs);
            let i = choose|i: int|
                0 <= i < outs.len() && (#[trigger] outs[i] matches Err(e) && e == collected(
                    outs,
                )->Err_0);
            assert(outs[i] == outcome(found(files[i], kept[i])));
            assert(fails_with(files[i], kept[i], why));
        },
        Ok(_) => {
            assert forall|i: int, why: Seq<char>| 0 <= i < files.len() implies !#[trigger] fails_with(
                files[i],
                kept[i],
                why,
            ) by {
                lemma_collected_all(outs, i);
                assert(outs[i] == outcome(found(files[i], kept[i])));
            }
        },
    }
}

/// Where all names of an archive are plain, nothing is left to the machine.
pub proof fn law_plain_names_decide(
    files: Seq<(Seq<char>, Result<Result<Seq<u8>, Seq<char>>, Seq<char>>)>,
    kept: Seq<bool>,
)
    requires
        possible(files, kept),
        forall|i: int| 0 <= i < files.len() ==> is_plain((#[trigger] files[i]).0),
    ensures
        kept == Seq::new(files.len(), |i: int| stays_inside(files[i].0)),
{
    let want = Seq::new(files.len(), |i: int| stays_inside(files[i].0));
    assert forall|i: int| 0 <= i < files.len() implies kept[i] == want[i] by {
        assert(is_plain(files[i].0));
    }
    assert(kept =~= want);
}

/// A path goes one deeper with each part that is a name, stays where it is with an empty part or a
/// single dot, and comes back up with two dots; once it has left its beginning, nothing brings it
/// back in.
pub proof fn law_depth(parts: Seq<Seq<char>>, part: Seq<char>)
    ensures
        depth(seq![]) == Some(0nat),
        depth(parts) is None ==> depth(parts.push(part)) is None,
        depth(parts) matches Some(d) ==> {
            &&& part.len() > 0 && part != seq!['.'] && part != seq!['.', '.'] ==> depth(
                parts.push(part),
            ) == Some(d + 1)
            &&& depth(parts.push(seq![])) == Some(d)
            &&& depth(parts.push(seq!['.'])) == Some(d)
            &&& d > 0 ==> depth(parts.push(seq!['.', '.'])) == Some((d - 1) as nat)
            &&& d == 0 ==> depth(parts.push(seq!['.', '.'])) is None
        },
{
    reveal_strlit("..");
    reveal_strlit(".");
    reveal_strlit("");
    assert(".."@ =~= seq!['.', '.']);
    assert("."@ =~= seq!['.']);
    assert(""@ =~= seq![]);
    assert(seq!['.', '.'].len() == 2 && seq!['.'].len() == 1);
    assert(parts.push(part).drop_last() =~= parts);
    assert(parts.push(seq![]).drop_last() =~= parts);
    assert(parts.push(seq!['.']).drop_last() =~= parts);
    assert(parts.push(seq!['.', '.']).drop_last() =~= parts);
}

proof fn lemma_never_up(parts: Seq<Seq<char>>)
    requires
        forall|i: int| 0 <= i < parts.len() ==> #[trigger] parts[i] != seq!['.', '.'],
    ensures
        depth(parts) is Some,
    decreases parts.len(),
{
    if parts.len() > 0 {
        let front = parts.drop_last();
        assert forall|i: int| 0 <= i < front.len() implies #[trigger] front[i] != seq!['.', '.'] by {
            assert(front[i] == parts[i]);
        }
        lemma_never_up(front);
        reveal_strlit("..");
        assert(".."@ =~= seq!['.', '.']);
        assert(parts[parts.len() - 1] == parts.last());
    }
}

proof fn lemma_stays_out(a: Seq<Seq<char>>, b: Seq<Seq<char>>)
    requires
        depth(a) is None,
    ensures
        depth(a + b) is None,
    decreases b.len(),
{
    if b.len() == 0 {
        assert(a + b =~= a);
    } else {
        lemma_stays_out(a, b.drop_last());
        assert((a + b).drop_last() =~= a + b.drop_last());
    }
}

/// A name without two dots as one of its parts stays inside, however deep it leads; one that begins
/// with two dots leads out, and so does one that begins with a slash or has a zero in it.
pub proof fn law_names_inside(parts: Seq<Seq<char>>)
    requires
        parts.len() > 0,
        forall|i: int|
            0 <= i < parts.len() ==> !(#[trigger] parts[i]).contains('/') && !parts[i].contains('\0'),
    ensures
        parts[0].len() > 0 && (forall|i: int|
            0 <= i < parts.len() ==> #[trigger] parts[i] != seq!['.', '.']) ==> stays_inside(
            text::joined(parts, seq!['/']),
        ),
        parts[0] == seq!['.', '.'] ==> !stays_inside(text::joined(parts, seq!['/'])),
        parts.len() > 1 && parts[0].len() == 0 ==> !stays_inside(text::joined(parts, seq!['/'])),
{
    let name = text::joined(parts, seq!['/']);
    text::law_joined_pieces(parts, '/');
    if forall|i: int| 0 <= i < parts.len() ==> #[trigger] parts[i] != seq!['.', '.'] {
        lemma_never_up(parts);
    }
    if parts[0] == seq!['.', '.'] {
        let one = seq![parts[0]];
        law_depth(seq![], seq![]);
        assert(Seq::<Seq<char>>::empty().push(parts[0]) =~= one);
        lemma_stays_out(one, parts.skip(1));
        assert(one + parts.skip(1) =~= parts);
    }
    let ok = |c: char| c != '\0';
    assert forall|i: int, j: int| 0 <= i < parts.len() && 0 <= j < parts[i].len() implies ok(
        #[trigger] parts[i][j],
    ) by {
        assert(!parts[i].contains('\0'));
        assert(parts[i].contains(parts[i][j]));
    }
    text::lemma_joined_all(parts, seq!['/'], ok);
    assert(!name.contains('\0')) by {
        if name.contains('\0') {
            let j = name.index_of('\0');
            assert(ok(name[j]));
        }
    }
    lemma_first_char(parts);
    if parts[0].len() > 0 {
        assert(parts[0].contains(parts[0][0]));
    }
}

proof fn lemma_first_char(parts: Seq<Seq<char>>)
    requires
        parts.len() > 0,
    ensures
        parts[0].len() > 0 ==> text::joined(parts, seq!['/']).len() > 0 && text::joined(
            parts,
            seq!['/'],
        )[0] == parts[0][0],
        parts.len() > 1 && parts[0].len() == 0 ==> text::joined(parts, seq!['/']).len() > 0
            && text::joined(parts, seq!['/'])[0] == '/',
    decreases parts.len(),
{
    if parts.len() > 1 {
        let front = parts.drop_last();
        lemma_first_char(front);
        if parts.len() == 2 {
            assert(text::joined(front, seq!['/']) == front[0]);
            assert(front[0] == parts[0]);
        }
    }
}

/// The steps of two parts of an archive are those of the first and then those of the second; a
/// failure of the first has the second not looked at.
pub proof fn law_collected_in_order(
    a: Seq<Result<Option<Step>, Seq<char>>>,
    b: Seq<Result<Option<Step>, Seq<char>>>,
)
    ensures
        collected(a) is Err ==> collected(a + b) == collected(a),
        collected(a) is Ok && collected(b) is Err ==> collected(a + b) == collected(b),
        collected(a) is Ok && collected(b) is Ok ==> (collected(a + b) matches Ok(steps) && steps
            == collected(a)->Ok_0 + collected(b)->Ok_0),
    decreases b.len(),
{
    if b.len() == 0 {
        assert(a + b =~= a);
        if collected(a) is Ok {
            assert(collected(a)->Ok_0 + collected(b)->Ok_0 =~= collected(a)->Ok_0);
        }
    } else {
        law_collected_in_order(a, b.drop_last());
        assert((a + b).drop_last() =~= a + b.drop_last());
        assert((a + b).last() == b.last());
        if collected(a) is Ok && collected(b) is Ok {
            assert(collected(a + b)->Ok_0 =~= collected(a)->Ok_0 + collected(b)->Ok_0);
        }
    }
}

/// A file that stays inside is written as it is under its own name; a directory is made; what leads
/// out is passed over, readable or not.
pub proof fn law_step_for(name: Seq<char>, data: Seq<u8>, why: Seq<char>)
    ensures
        step_for(Found { name, enclosed: false, data: Ok(data) }) == Ok::<Option<Step>, Seq<char>>(
            None,
        ),
        step_for(Found { name, enclosed: false, data: Err(why) }) == Ok::<Option<Step>, Seq<char>>(
            None,
        ),
        name.len() == 0 || (name.last() != '/' && name.last() != '\\') ==> step_for(
            Found { name, enclosed: true, data: Ok(data) },
        ) == Ok::<Option<Step>, Seq<char>>(Some(Step::WriteFile(name, data))) && step_for(
            Found { name, enclosed: true, data: Err(why) },
        ) == Err::<Option<Step>, Seq<char>>(why),
        step_for(Found { name: name.push('/'), enclosed: true, data: Err(why) }) == Ok::<
            Option<Step>,
            Seq<char>,
        >(Some(Step::MakeDir(name.push('/')))),
        step_for(Found { name: name.push('\\'), enclosed: true, data: Ok(data) }) == Ok::<
            Option<Step>,
            Seq<char>,
        >(Some(Step::MakeDir(name.push('\\')))),
{
    assert(name.push('/').last() == '/');
    assert(name.push('\\').last() == '\\');
}

} // verus!
