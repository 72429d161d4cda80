//! Camera-in-use detection.
//!
//! A process holds the camera when one of its open file descriptors points
//! at a `/dev/video*` device. The program around this library reads
//! `/proc/<pid>/comm` and the targets of `/proc/<pid>/fd/*`; this module
//! decides which processes count, how they are labelled, and how the
//! resulting boolean reading is debounced.

use vstd::prelude::*;
use vstd::multiset::group_multiset_axioms;
use vstd::seq_lib::group_to_multiset_ensures;

use crate::debounce::{
    Debouncer, DebouncerModel, last_change, last_readings_agree, lemma_history_keeps_wf,
    lemma_report_exactly_when_readings_agree, lemma_report_is_the_change, observe_all,
    observe_step, reports_all,
};
use crate::text::{
    all_digits, chars_of, extend_chars, lex_le, lex_le_chars, lex_sorted, starts_with_chars,
    string_of, trim, trim_chars,
};

verus! {

/// What was read of one entry of the process directory.
pub struct ProcEntry {
    /// The entry's file name (a pid for a process).
    pub name: String,
    /// The content of the entry's `comm` file, when it could be read.
    pub comm: Option<String>,
    /// The targets of the links under the entry's `fd` directory that
    /// could be read.
    pub fd_targets: Vec<String>,
}

/// The abstract content of a [`ProcEntry`].
pub struct ProcEntryModel {
    pub name: Seq<char>,
    pub comm: Option<Seq<char>>,
    pub fd_targets: Seq<Seq<char>>,
}

impl View for ProcEntry {
    type V = ProcEntryModel;

    open spec fn view(&self) -> ProcEntryModel {
        ProcEntryModel {
            name: self.name@,
            comm: self.comm.deep_view(),
            fd_targets: self.fd_targets.deep_view(),
        }
    }
}

/// The models of a list of entries.
pub open spec fn entries_model(entries: Seq<ProcEntry>) -> Seq<ProcEntryModel> {
    entries.map_values(|e: ProcEntry| e@)
}

/// Whether a directory entry names a process: its name is all ASCII digits.
pub open spec fn is_pid_name(name: Seq<char>) -> bool {
    all_digits(name)
}

/// The process name: the trimmed `comm` content, when that is not empty.
pub open spec fn process_name(comm: Option<Seq<char>>) -> Option<Seq<char>> {
    match comm {
        Some(raw) => if trim(raw).len() > 0 {
            Some(trim(raw))
        } else {
            None
        },
        None => None,
    }
}

/// Whether a text starts with one of the prefixes.
pub open spec fn has_prefix_in(n: Seq<char>, prefixes: Seq<Seq<char>>) -> bool {
    exists|j: int| 0 <= j < prefixes.len() && #[trigger] prefixes[j].is_prefix_of(n)
}

/// Whether a process name starts with one of the ignored prefixes.
pub open spec fn is_ignored(name: Option<Seq<char>>, ignore: Seq<Seq<char>>) -> bool {
    match name {
        Some(n) => has_prefix_in(n, ignore),
        None => false,
    }
}

/// Whether one of the descriptor targets is a video device.
pub open spec fn holds_video(targets: Seq<Seq<char>>) -> bool {
    exists|k: int| 0 <= k < targets.len() && "/dev/video"@.is_prefix_of(#[trigger] targets[k])
}

/// Whether an entry is a process, not ignored, that holds a video device.
pub open spec fn is_holder(e: ProcEntryModel, ignore: Seq<Seq<char>>) -> bool {
    &&& is_pid_name(e.name)
    &&& !is_ignored(process_name(e.comm), ignore)
    &&& holds_video(e.fd_targets)
}

/// How a camera holder is reported: `<name> (pid <pid>)`.
pub open spec fn holder_label(e: ProcEntryModel) -> Seq<char> {
    let name = match process_name(e.comm) {
        Some(n) => n,
        None => "unknown"@,
    };
    name + " (pid "@ + e.name + ")"@
}

/// The labels of the holders among `entries`, in directory order.
pub open spec fn holder_labels(entries: Seq<ProcEntryModel>, ignore: Seq<Seq<char>>) -> Seq<
    Seq<char>,
>
    decreases entries.len(),
{
    if entries.len() == 0 {
        Seq::empty()
    } else {
        let prev = holder_labels(entries.drop_last(), ignore);
        if is_holder(entries.last(), ignore) {
            prev.push(holder_label(entries.last()))
        } else {
            prev
        }
    }
}

proof fn lemma_insert_to_multiset<A>(s: Seq<A>, p: int, x: A)
    requires
        0 <= p <= s.len(),
    ensures
        s.insert(p, x).to_multiset() =~= s.to_multiset().insert(x),
{
    broadcast use group_multiset_axioms, group_to_multiset_ensures;

    let t = s.insert(p, x);
    assert(t.remove(p) =~= s);
    assert(t[p] == x);
    assert(t.contains(x));
    assert(t.to_multiset().remove(x) =~= s.to_multiset());
}

proof fn lemma_insert_sorted(s: Seq<Seq<char>>, p: int, x: Seq<char>)
    requires
        lex_sorted(s),
        0 <= p <= s.len(),
        forall|k: int| 0 <= k < p ==> lex_le(#[trigger] s[k], x),
        forall|k: int| p <= k < s.len() ==> lex_le(x, #[trigger] s[k]),
    ensures
        lex_sorted(s.insert(p, x)),
{
    let t = s.insert(p, x);
    assert forall|a: int, b: int| 0 <= a < b < t.len() implies lex_le(
        #[trigger] t[a],
        #[trigger] t[b],
    ) by {
        if a < p {
            if b < p {
                assert(t[a] == s[a] && t[b] == s[b]);
            } else if b == p {
                assert(t[a] == s[a]);
            } else {
                assert(t[a] == s[a] && t[b] == s[b - 1]);
            }
        } else if a == p {
            assert(t[b] == s[b - 1]);
        } else {
            assert(t[a] == s[a - 1] && t[b] == s[b - 1]);
        }
    }
}

/// Whether every character of the text is an ASCII digit.
fn all_digit_chars(v: &Vec<char>) -> (r: bool)
    ensures
        r == all_digits(v@),
{
    let mut i: usize = 0;
    while i < v.len()
        invariant
            i <= v.len(),
            forall|k: int| 0 <= k < i ==> crate::text::is_digit(#[trigger] v@[k]),
        decreases v.len() - i,
    {
        let u = v[i] as u32;
        if u < 48 || u > 57 {
            return false;
        }
        i = i + 1;
    }
    true
}

/// The process name read from a `comm` content.
fn process_name_of(comm: &Option<String>) -> (r: Option<Vec<char>>)
    ensures
        match process_name(comm.deep_view()) {
            Some(n) => r matches Some(v) && v@ == n,
            None => r is None,
        },
{
    match comm {
        Some(raw) => {
            let chars = chars_of(raw.as_str());
            let trimmed = trim_chars(&chars);
            if trimmed.len() > 0 {
                Some(trimmed)
            } else {
                None
            }
        },
        None => None,
    }
}

/// Whether the name starts with one of the prefixes.
fn is_ignored_name(name: &Vec<char>, ignore: &Vec<Vec<char>>, Ghost(model): Ghost<Seq<Seq<char>>>) -> (r: bool)
    requires
        model.len() == ignore.len(),
        forall|j: int| 0 <= j < ignore.len() ==> #[trigger] ignore@[j]@ == model[j],
    ensures
        r == has_prefix_in(name@, model),
{
    let mut j: usize = 0;
    while j < ignore.len()
        invariant
            model.len() == ignore.len(),
            forall|k: int| 0 <= k < ignore.len() ==> #[trigger] ignore@[k]@ == model[k],
            j <= ignore.len(),
            forall|k: int| 0 <= k < j ==> !(#[trigger] model[k]).is_prefix_of(name@),
        decreases ignore.len() - j,
    {
        if starts_with_chars(name, &ignore[j]) {
            assert(model[j as int].is_prefix_of(name@));
            return true;
        }
        j = j + 1;
    }
    false
}

/// Whether one of the descriptor targets is a video device.
fn holds_video_device(targets: &Vec<String>, prefix: &Vec<char>) -> (r: bool)
    requires
        prefix@ == "/dev/video"@,
    ensures
        r == holds_video(targets.deep_view()),
{
    let ghost model = targets.deep_view();
    let mut k: usize = 0;
    while k < targets.len()
        invariant
            prefix@ == "/dev/video"@,
            model == targets.deep_view(),
            k <= targets.len(),
            forall|i: int| 0 <= i < k ==> !"/dev/video"@.is_prefix_of(#[trigger] model[i]),
        decreases targets.len() - k,
    {
        let target = chars_of(targets[k].as_str());
        if starts_with_chars(&target, prefix) {
            assert("/dev/video"@.is_prefix_of(model[k as int]));
            return true;
        }
        k = k + 1;
    }
    false
}

/// List the non-ignored processes holding a `/dev/video*` device open,
/// sorted for stable logging.
///
/// `entries` are the entries of the process directory; `ignore` holds
/// process-name prefixes (matched against the trimmed `comm`) to skip —
/// typically background media services such as `pipewire` that keep the
/// device open without capturing.
pub fn scan_camera_holders(entries: &Vec<ProcEntry>, ignore: &Vec<String>) -> (holders: Vec<String>)
    ensures
        lex_sorted(holders.deep_view()),
        holders.deep_view().to_multiset() == holder_labels(
            entries_model(entries@),
            ignore.deep_view(),
        ).to_multiset(),
{
    let ghost ignore_model = ignore.deep_view();
    let ghost model = entries_model(entries@);
    let mut prefixes: Vec<Vec<char>> = Vec::new();
    let mut j: usize = 0;
    while j < ignore.len()
        invariant
            j <= ignore.len(),
            ignore_model == ignore.deep_view(),
            prefixes.len() == j,
            forall|k: int| 0 <= k < j ==> #[trigger] prefixes@[k]@ == ignore_model[k],
        decreases ignore.len() - j,
    {
        prefixes.push(chars_of(ignore[j].as_str()));
        j = j + 1;
    }
    let video = chars_of("/dev/video");
    let mut sorted: Vec<Vec<char>> = Vec::new();
    let ghost mut labels: Seq<Seq<char>> = Seq::empty();
    let mut i: usize = 0;
    while i < entries.len()
        invariant
            i <= entries.len(),
            model == entries_model(entries@),
            ignore_model == ignore.deep_view(),
            video@ == "/dev/video"@,
            prefixes.len() == ignore.len(),
            forall|k: int| 0 <= k < ignore.len() ==> #[trigger] prefixes@[k]@ == ignore_model[k],
            sorted.len() == labels.len(),
            forall|k: int| 0 <= k < sorted.len() ==> #[trigger] sorted@[k]@ == labels[k],
            lex_sorted(labels),
            labels.to_multiset() == holder_labels(model.take(i as int), ignore_model).to_multiset(),
        decreases entries.len() - i,
    {
        let entry = &entries[i];
        assert(model[i as int] == entry@);
        assert(model.take(i + 1).drop_last() =~= model.take(i as int));
        assert(model.take(i + 1).last() == entry@);
        let name = chars_of(entry.name.as_str());
        let comm = process_name_of(&entry.comm);
        let holder = if !all_digit_chars(&name) {
            false
        } else {
            let ignored = match &comm {
                Some(n) => is_ignored_name(n, &prefixes, Ghost(ignore_model)),
                None => false,
            };
            !ignored && holds_video_device(&entry.fd_targets, &video)
        };
        assert(holder == is_holder(entry@, ignore_model));
        if !holder {
            assert(holder_labels(model.take(i + 1), ignore_model) == holder_labels(
                model.take(i as int),
                ignore_model,
            ));
        }
        if holder {
            let mut label: Vec<char> = match comm {
                Some(n) => n,
                None => chars_of("unknown"),
            };
            extend_chars(&mut label, " (pid ");
            extend_chars(&mut label, entry.name.as_str());
            extend_chars(&mut label, ")");
            assert(label@ == holder_label(entry@));
            // Find the first place where the label is no later than the entry there.
            let mut p: usize = 0;
            while p < sorted.len() && !lex_le_chars(&label, &sorted[p])
                invariant
                    p <= sorted.len(),
                    sorted.len() == labels.len(),
                    forall|k: int| 0 <= k < sorted.len() ==> #[trigger] sorted@[k]@ == labels[k],
                    forall|k: int| 0 <= k < p ==> lex_le(#[trigger] labels[k], label@),
                decreases sorted.len() - p,
            {
                proof {
                    crate::text::lemma_lex_le_total(label@, labels[p as int]);
                }
                p = p + 1;
            }
            proof {
                assert forall|k: int| p <= k < labels.len() implies lex_le(label@, #[trigger] labels[k]) by {
                    if k > p {
                        crate::text::lemma_lex_le_transitive(label@, labels[p as int], labels[k]);
                    }
                }
                lemma_insert_sorted(labels, p as int, label@);
                lemma_insert_to_multiset(labels, p as int, label@);
                assert(holder_labels(model.take(i + 1), ignore_model) == holder_labels(
                    model.take(i as int),
                    ignore_model,
                ).push(label@));
                vstd::seq_lib::to_multiset_build(
                    holder_labels(model.take(i as int), ignore_model),
                    label@,
                );
                labels = labels.insert(p as int, label@);
            }
            sorted.insert(p, label);
            assert forall|k: int| 0 <= k < sorted.len() implies #[trigger] sorted@[k]@ == labels[k] by {
            }
        }
        i = i + 1;
    }
    assert(model.take(entries.len() as int) =~= model);
    let mut holders: Vec<String> = Vec::new();
    let mut k: usize = 0;
    while k < sorted.len()
        invariant
            k <= sorted.len(),
            sorted.len() == labels.len(),
            forall|m: int| 0 <= m < sorted.len() ==> #[trigger] sorted@[m]@ == labels[m],
            holders.deep_view() == labels.take(k as int),
        decreases sorted.len() - k,
    {
        let text = string_of(&sorted[k]);
        assert(text@ == labels[k as int]);
        let ghost before = holders.deep_view();
        holders.push(text);
        assert(holders.deep_view() =~= before.push(text@));
        k = k + 1;
        assert(holders.deep_view() =~= labels.take(k as int));
    }
    assert(labels.take(k as int) =~= labels);
    holders
}

/// The directory path type of the standard library, carried through
/// unchanged.
#[verifier::external_type_specification]
#[verifier::external_body]
pub struct ExPathBuf(std::path::PathBuf);

/// Whether any of the entries is a camera holder.
pub open spec fn camera_in_use(entries: Seq<ProcEntryModel>, ignore: Seq<Seq<char>>) -> bool {
    holder_labels(entries, ignore).len() > 0
}

/// The abstract state of a [`CameraWatcher`].
pub struct CameraWatcherModel {
    pub ignore: Seq<Seq<char>>,
    pub debouncer: DebouncerModel,
}

/// An entry is a camera holder exactly when its name is all ASCII digits,
/// its trimmed non-blank `comm` (if any) starts with none of the ignored
/// prefixes, and some descriptor target, at any position, starts with
/// `/dev/video`; its label is that name (or `unknown`), then ` (pid `, the
/// entry name and `)`. The holders are exactly the labels of such entries.
pub proof fn lemma_holders_are_video_processes_not_ignored(
    entries: Seq<ProcEntryModel>,
    ignore: Seq<Seq<char>>,
)
    ensures
        forall|x: Seq<char>|
            #[trigger] holder_labels(entries, ignore).contains(x) <==> exists|i: int|
                0 <= i < entries.len() && {
                    let e = #[trigger] entries[i];
                    let named = e.comm is Some && trim(e.comm.unwrap()).len() > 0;
                    &&& all_digits(e.name)
                    &&& !(named && exists|j: int|
                        0 <= j < ignore.len() && (#[trigger] ignore[j]).is_prefix_of(
                            trim(e.comm.unwrap()),
                        ))
                    &&& exists|k: int|
                        0 <= k < e.fd_targets.len() && "/dev/video"@.is_prefix_of(
                            #[trigger] e.fd_targets[k],
                        )
                    &&& x == (if named {
                        trim(e.comm.unwrap())
                    } else {
                        "unknown"@
                    }) + " (pid "@ + e.name + ")"@
                },
    decreases entries.len(),
{
    let q = |e: ProcEntryModel|
        {
            let named = e.comm is Some && trim(e.comm.unwrap()).len() > 0;
            &&& all_digits(e.name)
            &&& !(named && exists|j: int|
                0 <= j < ignore.len() && (#[trigger] ignore[j]).is_prefix_of(trim(e.comm.unwrap())))
            &&& exists|k: int|
                0 <= k < e.fd_targets.len() && "/dev/video"@.is_prefix_of(#[trigger] e.fd_targets[k])
        };
    let lab = |e: ProcEntryModel|
        (if e.comm is Some && trim(e.comm.unwrap()).len() > 0 {
            trim(e.comm.unwrap())
        } else {
            "unknown"@
        }) + " (pid "@ + e.name + ")"@;
    if entries.len() > 0 {
        let prev = entries.drop_last();
        lemma_holders_are_video_processes_not_ignored(prev, ignore);
        let labels = holder_labels(entries, ignore);
        let p = holder_labels(prev, ignore);
        let e = entries.last();
        let named = e.comm is Some && trim(e.comm.unwrap()).len() > 0;
        if named {
            assert(process_name(e.comm) == Some(trim(e.comm.unwrap())));
        }
        assert(is_holder(e, ignore) == q(e));
        assert(holder_label(e) == lab(e));
        assert forall|x: Seq<char>| #[trigger] labels.contains(x) implies exists|i: int|
            0 <= i < entries.len() && q(#[trigger] entries[i]) && x == lab(entries[i]) by {
            let m = choose|m: int| 0 <= m < labels.len() && labels[m] == x;
            if m < p.len() {
                assert(p[m] == x);
                assert(p.contains(x));
                let i = choose|i: int| 0 <= i < prev.len() && q(#[trigger] prev[i]) && x == lab(prev[i]);
                assert(entries[i] == prev[i]);
            } else {
                assert(entries[entries.len() - 1] == e);
            }
        }
        assert forall|x: Seq<char>|
            (exists|i: int| 0 <= i < entries.len() && q(#[trigger] entries[i]) && x == lab(entries[i]))
            implies #[trigger] labels.contains(x) by {
            let i = choose|i: int| 0 <= i < entries.len() && q(#[trigger] entries[i]) && x == lab(entries[i]);
            if i < prev.len() {
                assert(entries[i] == prev[i]);
                assert(q(prev[i]) && x == lab(prev[i]));
                assert(p.contains(x));
                let m = choose|m: int| 0 <= m < p.len() && p[m] == x;
                assert(labels[m] == x);
            } else {
                assert(entries[i] == e);
                assert(labels[labels.len() - 1] == x);
            }
        }
    }
}

/// A scan reads as "camera in use" exactly when some entry has an
/// all-digit name, some descriptor target starting with `/dev/video`, and a
/// trimmed non-blank `comm` (if any) that starts with none of the ignored
/// prefixes. A scan whose only video holders have ignored names is not in
/// use.
pub proof fn lemma_in_use_iff_unignored_video_process(
    entries: Seq<ProcEntryModel>,
    ignore: Seq<Seq<char>>,
)
    ensures
        camera_in_use(entries, ignore) <==> exists|i: int|
            0 <= i < entries.len() && {
                let e = #[trigger] entries[i];
                let named = e.comm is Some && trim(e.comm.unwrap()).len() > 0;
                &&& all_digits(e.name)
                &&& !(named && exists|j: int|
                    0 <= j < ignore.len() && (#[trigger] ignore[j]).is_prefix_of(
                        trim(e.comm.unwrap()),
                    ))
                &&& exists|k: int|
                    0 <= k < e.fd_targets.len() && "/dev/video"@.is_prefix_of(
                        #[trigger] e.fd_targets[k],
                    )
            },
{
    lemma_holders_are_video_processes_not_ignored(entries, ignore);
    let labels = holder_labels(entries, ignore);
    if labels.len() > 0 {
        assert(labels.contains(labels[0]));
    }
    if exists|i: int|
        0 <= i < entries.len() && {
            let e = #[trigger] entries[i];
            let named = e.comm is Some && trim(e.comm.unwrap()).len() > 0;
            &&& all_digits(e.name)
            &&& !(named && exists|j: int|
                0 <= j < ignore.len() && (#[trigger] ignore[j]).is_prefix_of(
                    trim(e.comm.unwrap()),
                ))
            &&& exists|k: int|
                0 <= k < e.fd_targets.len() && "/dev/video"@.is_prefix_of(
                    #[trigger] e.fd_targets[k],
                )
        } {
        let i = choose|i: int|
            0 <= i < entries.len() && {
                let e = #[trigger] entries[i];
                let named = e.comm is Some && trim(e.comm.unwrap()).len() > 0;
                &&& all_digits(e.name)
                &&& !(named && exists|j: int|
                    0 <= j < ignore.len() && (#[trigger] ignore[j]).is_prefix_of(
                        trim(e.comm.unwrap()),
                    ))
                &&& exists|k: int|
                    0 <= k < e.fd_targets.len() && "/dev/video"@.is_prefix_of(
                        #[trigger] e.fd_targets[k],
                    )
            };
        let e = entries[i];
        let named = e.comm is Some && trim(e.comm.unwrap()).len() > 0;
        let x = (if named {
            trim(e.comm.unwrap())
        } else {
            "unknown"@
        }) + " (pid "@ + e.name + ")"@;
        assert(labels.contains(x));
    }
}

/// Whether every prefix of `ignore1` is also in `ignore2`.
pub open spec fn prefixes_within(ignore1: Seq<Seq<char>>, ignore2: Seq<Seq<char>>) -> bool {
    forall|i: int| 0 <= i < ignore1.len() ==> ignore2.contains(#[trigger] ignore1[i])
}

proof fn lemma_holder_with_more_prefixes(e: ProcEntryModel, ignore1: Seq<Seq<char>>, ignore2: Seq<Seq<char>>)
    requires
        prefixes_within(ignore1, ignore2),
        is_holder(e, ignore2),
    ensures
        is_holder(e, ignore1),
{
    if let Some(n) = process_name(e.comm) {
        if has_prefix_in(n, ignore1) {
            let j = choose|j: int| 0 <= j < ignore1.len() && #[trigger] ignore1[j].is_prefix_of(n);
            assert(ignore2.contains(ignore1[j]));
            let k = choose|k: int| 0 <= k < ignore2.len() && ignore2[k] == ignore1[j];
            assert(ignore2[k].is_prefix_of(n));
        }
    }
}

/// Ignoring more prefixes can only remove holders, never add one: every
/// holder found with the larger list is also found with the smaller one.
pub proof fn lemma_more_ignored_prefixes_fewer_holders(
    entries: Seq<ProcEntryModel>,
    ignore1: Seq<Seq<char>>,
    ignore2: Seq<Seq<char>>,
)
    requires
        prefixes_within(ignore1, ignore2),
    ensures
        forall|x: Seq<char>|
            #[trigger] holder_labels(entries, ignore2).contains(x) ==> holder_labels(
                entries,
                ignore1,
            ).contains(x),
    decreases entries.len(),
{
    if entries.len() > 0 {
        let prev = entries.drop_last();
        lemma_more_ignored_prefixes_fewer_holders(prev, ignore1, ignore2);
        let e = entries.last();
        let l1 = holder_labels(entries, ignore1);
        let l2 = holder_labels(entries, ignore2);
        let p1 = holder_labels(prev, ignore1);
        let p2 = holder_labels(prev, ignore2);
        if is_holder(e, ignore2) {
            lemma_holder_with_more_prefixes(e, ignore1, ignore2);
        }
        assert forall|x: Seq<char>| #[trigger] l2.contains(x) implies l1.contains(x) by {
            let i = choose|i: int| 0 <= i < l2.len() && l2[i] == x;
            if i < p2.len() {
                assert(p2[i] == x);
                assert(p2.contains(x));
                let k = choose|k: int| 0 <= k < p1.len() && p1[k] == x;
                assert(l1[k] == x);
            } else {
                assert(l1[l1.len() - 1] == x);
            }
        }
    }
}

/// The abstract form of a poll's input.
pub open spec fn scan_model(scan: Option<&Vec<ProcEntry>>) -> Option<Seq<ProcEntryModel>> {
    match scan {
        Some(entries) => Some(entries_model(entries@)),
        None => None,
    }
}

/// One poll: a failed scan (`None`) changes nothing and reports nothing; a
/// successful one is a debouncer reading of whether the camera is in use.
pub open spec fn poll_step(w: CameraWatcherModel, scan: Option<Seq<ProcEntryModel>>) -> (
    CameraWatcherModel,
    Option<bool>,
) {
    match scan {
        None => (w, None),
        Some(entries) => {
            let step = observe_step(w.debouncer, camera_in_use(entries, w.ignore));
            (CameraWatcherModel { ignore: w.ignore, debouncer: step.0 }, step.1)
        },
    }
}

/// The watcher after a history of polls.
pub open spec fn poll_all(w: CameraWatcherModel, scans: Seq<Option<Seq<ProcEntryModel>>>) -> CameraWatcherModel
    decreases scans.len(),
{
    if scans.len() == 0 {
        w
    } else {
        poll_step(poll_all(w, scans.drop_last()), scans.last()).0
    }
}

/// What each poll of a history returned.
pub open spec fn poll_reports(w: CameraWatcherModel, scans: Seq<Option<Seq<ProcEntryModel>>>) -> Seq<
    Option<bool>,
>
    decreases scans.len(),
{
    if scans.len() == 0 {
        Seq::empty()
    } else {
        poll_reports(w, scans.drop_last()).push(
            poll_step(poll_all(w, scans.drop_last()), scans.last()).1,
        )
    }
}

/// The readings of the successful scans of a history, in order.
pub open spec fn scan_readings(scans: Seq<Option<Seq<ProcEntryModel>>>, ignore: Seq<Seq<char>>) -> Seq<
    bool,
>
    decreases scans.len(),
{
    if scans.len() == 0 {
        Seq::empty()
    } else {
        let prev = scan_readings(scans.drop_last(), ignore);
        match scans.last() {
            Some(entries) => prev.push(camera_in_use(entries, ignore)),
            None => prev,
        }
    }
}

/// The reports of the polls whose scans succeeded, in order.
pub open spec fn successful_reports(
    scans: Seq<Option<Seq<ProcEntryModel>>>,
    reports: Seq<Option<bool>>,
) -> Seq<Option<bool>>
    decreases scans.len(),
{
    if scans.len() == 0 || reports.len() == 0 {
        Seq::empty()
    } else {
        let prev = successful_reports(scans.drop_last(), reports.drop_last());
        if scans.last() is Some {
            prev.push(reports.last())
        } else {
            prev
        }
    }
}

/// Over any history of polls, a watcher behaves as its debouncer fed the
/// readings of the successful scans only: its debouncer ends where that
/// debouncer ends, the successful polls report what that debouncer reports,
/// in order, and the failed polls report nothing.
pub proof fn lemma_watcher_follows_debouncer(
    w: CameraWatcherModel,
    scans: Seq<Option<Seq<ProcEntryModel>>>,
)
    ensures
        poll_all(w, scans).ignore == w.ignore,
        poll_all(w, scans).debouncer == observe_all(w.debouncer, scan_readings(scans, w.ignore)),
        poll_reports(w, scans).len() == scans.len(),
        successful_reports(scans, poll_reports(w, scans)) == reports_all(
            w.debouncer,
            scan_readings(scans, w.ignore),
        ),
        forall|i: int| 0 <= i < scans.len() && scans[i] is None ==> #[trigger] poll_reports(w, scans)[i] is None,
    decreases scans.len(),
{
    if scans.len() > 0 {
        let prev = scans.drop_last();
        lemma_watcher_follows_debouncer(w, prev);
        let reps = poll_reports(w, scans);
        assert(reps.drop_last() =~= poll_reports(w, prev));
        let readings = scan_readings(scans, w.ignore);
        match scans.last() {
            Some(entries) => {
                assert(readings.drop_last() =~= scan_readings(prev, w.ignore));
            },
            None => {},
        }
        assert forall|i: int| 0 <= i < scans.len() && scans[i] is None implies #[trigger] reps[i] is None by {
            if i < prev.len() {
                assert(scans[i] == prev[i]);
                assert(reps[i] == poll_reports(w, prev)[i]);
            }
        }
    }
}

/// Over any history of polls, the watcher's state is the most recently
/// reported change, or its initial reading when no poll reported one.
pub proof fn lemma_watcher_state_is_last_change(
    w: CameraWatcherModel,
    scans: Seq<Option<Seq<ProcEntryModel>>>,
)
    requires
        w.debouncer.wf(),
    ensures
        poll_all(w, scans).debouncer.state == last_change(
            w.debouncer.state,
            poll_reports(w, scans),
        ),
    decreases scans.len(),
{
    if scans.len() > 0 {
        let prev = scans.drop_last();
        lemma_watcher_state_is_last_change(w, prev);
        lemma_watcher_follows_debouncer(w, prev);
        lemma_history_keeps_wf(w.debouncer, scan_readings(prev, w.ignore));
        if let Some(entries) = scans.last() {
            lemma_report_is_the_change(
                poll_all(w, prev).debouncer,
                camera_in_use(entries, w.ignore),
            );
        }
        assert(poll_reports(w, scans).drop_last() =~= poll_reports(w, prev));
    }
}

/// From a new watcher (its debouncer settled), a poll reports a change
/// exactly when its scan succeeded, the camera reading differs from the
/// committed state, and the last `threshold` successful scans (this one
/// included, the initial scan excluded) all agree with it. So a holder seen
/// by fewer successful polls than the threshold never changes the state.
pub proof fn lemma_watcher_report_exactly_when_scans_agree(
    w: CameraWatcherModel,
    scans: Seq<Option<Seq<ProcEntryModel>>>,
)
    requires
        w.debouncer.wf(),
        w.debouncer.settled(),
        scans.len() > 0,
    ensures
        ({
            let readings = scan_readings(scans, w.ignore);
            poll_reports(w, scans).last() == match scans.last() {
                None => None,
                Some(entries) => {
                    let reading = camera_in_use(entries, w.ignore);
                    if reading != poll_all(w, scans.drop_last()).debouncer.state && last_readings_agree(
                        readings,
                        w.debouncer.threshold,
                        reading,
                    ) {
                        Some(reading)
                    } else {
                        None
                    }
                },
            }
        }),
{
    let prev = scans.drop_last();
    lemma_watcher_follows_debouncer(w, prev);
    if let Some(entries) = scans.last() {
        let readings = scan_readings(scans, w.ignore);
        assert(readings.drop_last() =~= scan_readings(prev, w.ignore));
        lemma_report_exactly_when_readings_agree(w.debouncer, readings);
    }
}

/// Watches camera usage over time, emitting debounced on/off transitions.
pub struct CameraWatcher {
    proc_root: std::path::PathBuf,
    ignore: Vec<String>,
    debouncer: Debouncer,
}

impl View for CameraWatcher {
    type V = CameraWatcherModel;

    closed spec fn view(&self) -> CameraWatcherModel {
        CameraWatcherModel { ignore: self.ignore.deep_view(), debouncer: self.debouncer@ }
    }
}

impl CameraWatcher {
    /// The process directory this watcher scans.
    pub closed spec fn root(&self) -> std::path::PathBuf {
        self.proc_root
    }

    /// Create a watcher from an immediate (non-debounced) initial reading of
    /// the process directory `proc_root`, whose entries are `initial`, so
    /// the daemon can sync the light to reality on startup.
    pub fn new(
        proc_root: std::path::PathBuf,
        ignore: Vec<String>,
        debounce: u32,
        initial: &Vec<ProcEntry>,
    ) -> (w: Self)
        ensures
            w.root() == proc_root,
            w@.ignore == ignore.deep_view(),
            w@.debouncer.state == camera_in_use(entries_model(initial@), ignore.deep_view()),
            w@.debouncer.pending is None,
            w@.debouncer.count == 0,
            w@.debouncer.threshold == if debounce == 0 { 1 } else { debounce as nat },
    {
        let holders = scan_camera_holders(initial, &ignore);
        proof {
            holders.deep_view().to_multiset_ensures();
            holder_labels(entries_model(initial@), ignore.deep_view()).to_multiset_ensures();
        }
        let in_use = holders.len() > 0;
        CameraWatcher { proc_root, ignore, debouncer: Debouncer::new(in_use, debounce) }
    }

    /// The process directory to scan.
    pub fn proc_root(&self) -> (p: &std::path::PathBuf)
        ensures
            *p == self.root(),
    {
        &self.proc_root
    }

    /// The process-name prefixes this watcher ignores.
    pub fn ignore_processes(&self) -> (ignore: &Vec<String>)
        ensures
            ignore.deep_view() == self@.ignore,
    {
        &self.ignore
    }

    /// The current committed camera state (`true` = in use).
    pub fn state(&self) -> (s: bool)
        ensures
            s == self@.debouncer.state,
    {
        self.debouncer.state()
    }

    /// Take one reading. `scan` holds the entries of the process directory,
    /// or `None` when reading it failed. Returns `Some(true/false)` on a
    /// debounced transition.
    ///
    /// A failed scan is treated as "no change" rather than a transition, so
    /// a transient read error never toggles the light.
    pub fn poll(&mut self, scan: Option<&Vec<ProcEntry>>) -> (change: Option<bool>)
        ensures
            final(self).root() == old(self).root(),
            final(self)@.ignore == old(self)@.ignore,
            match scan {
                None => change is None && final(self)@ == old(self)@,
                Some(entries) => {
                    let reading = camera_in_use(entries_model(entries@), old(self)@.ignore);
                    &&& final(self)@.debouncer == observe_step(old(self)@.debouncer, reading).0
                    &&& change == observe_step(old(self)@.debouncer, reading).1
                },
            },
            (final(self)@, change) == poll_step(old(self)@, scan_model(scan)),
    {
        match scan {
            None => None,
            Some(entries) => {
                let holders = scan_camera_holders(entries, &self.ignore);
                proof {
                    holders.deep_view().to_multiset_ensures();
                    holder_labels(
                        entries_model(entries@),
                        self.ignore.deep_view(),
                    ).to_multiset_ensures();
                }
                let in_use = holders.len() > 0;
                self.debouncer.observe(in_use)
            },
        }
    }
}

} // verus!
