use vstd::prelude::*;
use crate::errors::{Error, ErrorView};
use crate::grouping::{group_by_fn, is_partition, is_run};
use crate::label::{date_label, index_stem, stem_text, valid_ymd, ymd_text};
use crate::paths::{join_path, join_text, texts};
use crate::photo::Photo;
use crate::rename::{cmd_views, create_move_commands, move_result, Cmd, CmdView};

verus! {

/// When a photo was taken, to the second.
#[derive(Clone, Copy, Debug, PartialEq, Eq)]
pub struct CaptureTime {
    pub year: i32,
    pub month: u32,
    pub day: u32,
    pub hour: u32,
    pub minute: u32,
    pub second: u32,
}

/// A photo and when it was taken, if that is known.
#[derive(Debug, PartialEq, Eq)]
pub struct AnnotatedPhoto {
    pub photo: Photo,
    pub captured_at: Option<CaptureTime>,
}

/// `a` is not later than `b`.
pub open spec fn time_le(a: CaptureTime, b: CaptureTime) -> bool {
    if a.year != b.year {
        a.year < b.year
    } else if a.month != b.month {
        a.month < b.month
    } else if a.day != b.day {
        a.day < b.day
    } else if a.hour != b.hour {
        a.hour < b.hour
    } else if a.minute != b.minute {
        a.minute < b.minute
    } else {
        a.second <= b.second
    }
}

/// The order of capture times in which an unknown time comes first.
pub open spec fn taken_le(a: Option<CaptureTime>, b: Option<CaptureTime>) -> bool {
    match (a, b) {
        (None, _) => true,
        (Some(_), None) => false,
        (Some(x), Some(y)) => time_le(x, y),
    }
}

/// Two capture times on one calendar date, or both unknown.
pub open spec fn same_day(a: Option<CaptureTime>, b: Option<CaptureTime>) -> bool {
    match (a, b) {
        (None, None) => true,
        (Some(x), Some(y)) => x.year == y.year && x.month == y.month && x.day == y.day,
        _ => false,
    }
}

/// `x` put into `s` after every element that was taken no later than it.
pub open spec fn insert_by_time(s: Seq<AnnotatedPhoto>, x: AnnotatedPhoto) -> Seq<AnnotatedPhoto>
    decreases s.len(),
{
    if s.len() == 0 {
        seq![x]
    } else if taken_le(s.last().captured_at, x.captured_at) {
        s.push(x)
    } else {
        insert_by_time(s.drop_last(), x).push(s.last())
    }
}

/// `s` in order of capture time; photos taken at the same time keep their
/// order.
pub open spec fn sort_by_time(s: Seq<AnnotatedPhoto>) -> Seq<AnnotatedPhoto>
    decreases s.len(),
{
    if s.len() == 0 {
        Seq::empty()
    } else {
        insert_by_time(sort_by_time(s.drop_last()), s.last())
    }
}

proof fn lemma_insert_at(s: Seq<AnnotatedPhoto>, x: AnnotatedPhoto, j: int)
    requires
        0 <= j <= s.len(),
        j > 0 ==> taken_le(s[j - 1].captured_at, x.captured_at),
        forall|m: int| j <= m < s.len() ==> !taken_le(#[trigger] s[m].captured_at, x.captured_at),
    ensures
        insert_by_time(s, x) == s.subrange(0, j).push(x) + s.subrange(j, s.len() as int),
    decreases s.len(),
{
    if s.len() == 0 {
        assert(s.subrange(0, j).push(x) + s.subrange(j, s.len() as int) =~= seq![x]);
    } else if j == s.len() {
        assert(s.subrange(0, j).push(x) + s.subrange(j, s.len() as int) =~= s.push(x));
    } else {
        let t = s.drop_last();
        assert forall|m: int| j <= m < t.len() implies !taken_le(#[trigger] t[m].captured_at, x.captured_at) by {
            assert(t[m] == s[m]);
        }
        lemma_insert_at(t, x, j);
        assert(t.subrange(0, j).push(x) + t.subrange(j, t.len() as int) + seq![s.last()] =~= s.subrange(
            0,
            j,
        ).push(x) + s.subrange(j, s.len() as int));
    }
}

fn taken_le_exec(a: &Option<CaptureTime>, b: &Option<CaptureTime>) -> (r: bool)
    ensures
        r == taken_le(*a, *b),
{
    match (a, b) {
        (None, _) => true,
        (Some(_), None) => false,
        (Some(x), Some(y)) => {
            if x.year != y.year {
                x.year < y.year
            } else if x.month != y.month {
                x.month < y.month
            } else if x.day != y.day {
                x.day < y.day
            } else if x.hour != y.hour {
                x.hour < y.hour
            } else if x.minute != y.minute {
                x.minute < y.minute
            } else {
                x.second <= y.second
            }
        },
    }
}

fn same_day_exec(a: &Option<CaptureTime>, b: &Option<CaptureTime>) -> (r: bool)
    ensures
        r == same_day(*a, *b),
{
    match (a, b) {
        (None, None) => true,
        (Some(x), Some(y)) => x.year == y.year && x.month == y.month && x.day == y.day,
        _ => false,
    }
}

/// Sorts photos by capture time, unknown times first; photos taken at the same
/// time keep their order.
pub fn sort_by_capture_time(dated: Vec<AnnotatedPhoto>) -> (r: Vec<AnnotatedPhoto>)
    ensures
        r@ == sort_by_time(dated@),
{
    let ghost all = dated@;
    let total = dated.len();
    let mut rest = dated;
    let mut out: Vec<AnnotatedPhoto> = Vec::new();
    let mut i: usize = 0;
    proof {
        assert(all.subrange(0, 0) =~= Seq::<AnnotatedPhoto>::empty());
        assert(rest@ =~= all.subrange(0, all.len() as int));
    }
    while rest.len() > 0
        invariant
            i <= all.len(),
            all.len() == total,
            rest@ == all.subrange(i as int, all.len() as int),
            out@ == sort_by_time(all.subrange(0, i as int)),
        decreases rest@.len(),
    {
        let x = rest.remove(0);
        let mut j: usize = out.len();
        while j > 0 && !taken_le_exec(&out[j - 1].captured_at, &x.captured_at)
            invariant
                j <= out@.len(),
                forall|m: int| j <= m < out@.len() ==> !taken_le(#[trigger] out@[m].captured_at, x.captured_at),
            decreases j,
        {
            j = j - 1;
        }
        proof {
            lemma_insert_at(out@, x, j as int);
            let sub = all.subrange(0, i + 1);
            assert(sub.drop_last() =~= all.subrange(0, i as int));
            assert(x == all[i as int]);
            assert(out@.subrange(0, j as int).push(x) + out@.subrange(j as int, out@.len() as int) =~= out@.insert(
                j as int,
                x,
            ));
            assert(rest@ =~= all.subrange(i + 1, all.len() as int));
        }
        out.insert(j, x);
        i = i + 1;
    }
    proof {
        assert(all.subrange(0, i as int) =~= all);
    }
    out
}

/// The name of the directory of a date: `YYYY-MM-DD`, or `no-date` for an
/// unknown date; an error for a date that does not exist.
pub open spec fn label_of(t: Option<CaptureTime>) -> Result<Seq<char>, ErrorView> {
    match t {
        None => Ok("no-date"@),
        Some(x) => if valid_ymd(x.year, x.month, x.day) {
            Ok(ymd_text(x.year, x.month, x.day))
        } else {
            Err(ErrorView::InvalidDate(x.year, x.month, x.day))
        },
    }
}

/// The index of the first photo of the run of same-day photos that holds
/// `s[k]`.
pub open spec fn group_start(s: Seq<AnnotatedPhoto>, k: int) -> int
    decreases k,
{
    if k <= 0 {
        0
    } else if same_day(s[k - 1].captured_at, s[k].captured_at) {
        group_start(s, k - 1)
    } else {
        k
    }
}

/// The plan for the first `n` photos of the sorted `s`: each run of same-day
/// photos gets a directory under `out`, created before its first photo moves
/// there; the photo at place `i` of its run gets the stem `{i:04}_{label}`.
/// Planning stops at the first error met in this order: a date that does not
/// exist, when its run begins, or a path without a file name.
pub open spec fn plan_prefix(s: Seq<AnnotatedPhoto>, out: Seq<char>, n: nat) -> Result<Seq<CmdView>, ErrorView>
    decreases n,
{
    if n == 0 {
        Ok(Seq::empty())
    } else {
        match plan_prefix(s, out, (n - 1) as nat) {
            Err(e) => Err(e),
            Ok(prev) => {
                let k = n - 1;
                let g = group_start(s, k);
                match label_of(s[g].captured_at) {
                    Err(e) => Err(e),
                    Ok(l) => {
                        let dir = join_text(out, l);
                        let head = if g == k {
                            seq![CmdView::CreateDirectory(dir)]
                        } else {
                            Seq::empty()
                        };
                        match move_result(
                            s[k].photo.source@,
                            texts(s[k].photo.derived@),
                            stem_text((k - g) as nat, l),
                            dir,
                        ) {
                            Err(e) => Err(e),
                            Ok(c) => Ok(prev + head + c),
                        }
                    },
                }
            },
        }
    }
}

/// The plan that sorts `dated` into directories by date under `out`.
pub open spec fn plan_by_date(dated: Seq<AnnotatedPhoto>, out: Seq<char>) -> Result<Seq<CmdView>, ErrorView> {
    let s = sort_by_time(dated);
    plan_prefix(s, out, s.len())
}

proof fn lemma_plan_fails_on(s: Seq<AnnotatedPhoto>, out: Seq<char>, n: nat, m: nat)
    requires
        n <= m,
        plan_prefix(s, out, n) is Err,
    ensures
        plan_prefix(s, out, m) == plan_prefix(s, out, n),
    decreases m,
{
    if m > n {
        lemma_plan_fails_on(s, out, n, (m - 1) as nat);
    }
}

proof fn lemma_run_start(d: Seq<AnnotatedPhoto>, s: int, e: int, i: int)
    requires
        0 <= s <= i < e <= d.len(),
        s == 0 || !same_day(d[s - 1].captured_at, d[s].captured_at),
        forall|j: int| s < j < e ==> same_day(#[trigger] d[j].captured_at, d[s].captured_at),
    ensures
        group_start(d, i) == s,
    decreases i - s,
{
    if i > s {
        lemma_run_start(d, s, e, i - 1);
        if i - 1 > s {
            assert(same_day(d[i - 1].captured_at, d[s].captured_at));
        }
        assert(same_day(d[i].captured_at, d[s].captured_at));
    }
}

/// Adds the moves of the photos `sorted[s..e]`, one run of same-day photos,
/// into `dir`, after the step that creates it.
fn plan_group(
    sorted: &Vec<AnnotatedPhoto>,
    s: usize,
    e: usize,
    label: &String,
    dir: &String,
    out_dir: &str,
    cmds: &mut Vec<Cmd>,
) -> (r: Result<(), Error>)
    requires
        s < e <= sorted@.len(),
        forall|i: int| s <= i < e ==> #[trigger] group_start(sorted@, i) == s,
        label_of(sorted@[s as int].captured_at) == Ok::<Seq<char>, ErrorView>(label@),
        dir@ == join_text(out_dir@, label@),
        plan_prefix(sorted@, out_dir@, s as nat) is Ok,
        cmd_views(old(cmds)@) == plan_prefix(sorted@, out_dir@, s as nat)->Ok_0 + seq![
            CmdView::CreateDirectory(dir@),
        ],
    ensures
        r is Ok ==> plan_prefix(sorted@, out_dir@, e as nat) == Ok::<Seq<CmdView>, ErrorView>(
            cmd_views(final(cmds)@),
        ),
        r matches Err(err) ==> plan_prefix(sorted@, out_dir@, e as nat) == Err::<Seq<CmdView>, ErrorView>(err@),
{
    let ghost d = sorted@;
    let mut i: usize = s;
    while i < e
        invariant
            d == sorted@,
            s <= i <= e,
            e <= d.len(),
            forall|k: int| s <= k < e ==> #[trigger] group_start(d, k) == s,
            label_of(d[s as int].captured_at) == Ok::<Seq<char>, ErrorView>(label@),
            dir@ == join_text(out_dir@, label@),
            plan_prefix(d, out_dir@, s as nat) is Ok,
            plan_prefix(d, out_dir@, i as nat) is Ok,
            cmd_views(cmds@) == plan_prefix(d, out_dir@, i as nat)->Ok_0 + if i == s {
                seq![CmdView::CreateDirectory(dir@)]
            } else {
                Seq::empty()
            },
        decreases e - i,
    {
        let stem = index_stem(i - s, label.as_str());
        let ghost before = cmds@;
        proof {
            assert(group_start(d, i as int) == s);
        }
        match create_move_commands(&sorted[i].photo, stem.as_str(), dir.as_str()) {
            Ok(mut c) => {
                let ghost cv = cmd_views(c@);
                cmds.append(&mut c);
                proof {
                    assert(cmd_views(cmds@) =~= cmd_views(before) + cv);
                    if i == s {
                        assert(cmd_views(cmds@) =~= plan_prefix(d, out_dir@, i as nat)->Ok_0 + seq![
                            CmdView::CreateDirectory(dir@),
                        ] + cv);
                    } else {
                        assert(cmd_views(cmds@) =~= plan_prefix(d, out_dir@, i as nat)->Ok_0 + Seq::<
                            CmdView,
                        >::empty() + cv);
                    }
                }
            },
            Err(err) => {
                proof {
                    assert(plan_prefix(d, out_dir@, (i + 1) as nat) == Err::<Seq<CmdView>, ErrorView>(err@));
                    lemma_plan_fails_on(d, out_dir@, (i + 1) as nat, e as nat);
                }
                return Err(err);
            },
        }
        i = i + 1;
    }
    Ok(())
}

/// The name of the directory for photos taken at `t`.
fn group_label(t: &Option<CaptureTime>) -> (r: Result<String, Error>)
    ensures
        r matches Ok(l) ==> label_of(*t) == Ok::<Seq<char>, ErrorView>(l@),
        r matches Err(e) ==> label_of(*t) == Err::<Seq<char>, ErrorView>(e@),
{
    match t {
        None => Ok(String::from_str("no-date")),
        Some(x) => match date_label(x.year, x.month, x.day) {
            Some(l) => Ok(l),
            None => Err(Error::InvalidDate(x.year, x.month, x.day)),
        },
    }
}

proof fn lemma_group_starts<F: Fn(&AnnotatedPhoto, &AnnotatedPhoto) -> bool>(
    d: Seq<AnnotatedPhoto>,
    groups: Seq<(usize, usize)>,
    compare: F,
    gi: int,
)
    requires
        0 <= gi < groups.len(),
        is_partition(groups, 0, d.len() as int),
        forall|k: int| 0 <= k < groups.len() ==> is_run(d, compare, #[trigger] groups[k].0 as int, groups[k].1 as int),
        forall|x: &AnnotatedPhoto, y: &AnnotatedPhoto, r: bool|
            compare.ensures((x, y), r) ==> r == same_day(x.captured_at, y.captured_at),
    ensures
        forall|i: int| groups[gi].0 <= i < groups[gi].1 ==> #[trigger] group_start(d, i) == groups[gi].0,
{
    let s = groups[gi].0 as int;
    let e = groups[gi].1 as int;
    assert(is_run(d, compare, s, e));
    assert forall|j: int| s < j < e implies same_day(#[trigger] d[j].captured_at, d[s].captured_at) by {
        assert(compare.ensures((&d[j], &d[s]), true));
    }
    if gi > 0 {
        let ps = groups[gi - 1].0 as int;
        assert(is_run(d, compare, ps, s));
        assert(groups[gi - 1].1 == groups[gi].0);
        assert(compare.ensures((&d[s], &d[ps]), false));
        if s - 1 > ps {
            assert(compare.ensures((&d[s - 1], &d[ps]), true));
        }
        assert(!same_day(d[s - 1].captured_at, d[s].captured_at));
    } else {
        assert(s == 0);
    }
    assert forall|i: int| s <= i < e implies #[trigger] group_start(d, i) == s by {
        lemma_run_start(d, s, e, i);
    }
}

/// Sorts photos by capture time, groups them by calendar date, and plans for
/// each group a directory and the moves of its photos into it.
pub fn group_files_by_date(dated: Vec<AnnotatedPhoto>, out_dir: &str) -> (r: Result<Vec<Cmd>, Error>)
    ensures
        r matches Ok(c) ==> plan_by_date(dated@, out_dir@) == Ok::<Seq<CmdView>, ErrorView>(cmd_views(c@)),
        r matches Err(e) ==> plan_by_date(dated@, out_dir@) == Err::<Seq<CmdView>, ErrorView>(e@),
{
    let ghost input = dated@;
    let sorted = sort_by_capture_time(dated);
    let ghost d = sorted@;
    let len = sorted.len();
    let compare = |a: &AnnotatedPhoto, b: &AnnotatedPhoto| -> (r: bool)
        ensures
            r == same_day(a.captured_at, b.captured_at),
        { same_day_exec(&a.captured_at, &b.captured_at) };
    proof {
        assert(plan_by_date(input, out_dir@) == plan_prefix(d, out_dir@, len as nat));
        assert(forall|x: &AnnotatedPhoto, y: &AnnotatedPhoto, r: bool|
            compare.ensures((x, y), r) ==> r == same_day(x.captured_at, y.captured_at));
    }
    let mut grouper = group_by_fn(sorted.as_slice(), compare);
    let groups = grouper.groups();
    let mut cmds: Vec<Cmd> = Vec::new();
    let mut gi: usize = 0;
    let mut pos: usize = 0;
    proof {
        assert(cmd_views(cmds@) =~= Seq::<CmdView>::empty());
    }
    while gi < groups.len()
        invariant
            d == sorted@,
            len == d.len(),
            plan_by_date(input, out_dir@) == plan_prefix(d, out_dir@, len as nat),
            input == dated@,
            forall|x: &AnnotatedPhoto, y: &AnnotatedPhoto, r: bool|
                compare.ensures((x, y), r) ==> r == same_day(x.captured_at, y.captured_at),
            is_partition(groups@, 0, len as int),
            forall|k: int|
                0 <= k < groups@.len() ==> is_run(d, compare, #[trigger] groups@[k].0 as int, groups@[k].1 as int),
            gi <= groups@.len(),
            gi < groups@.len() ==> groups@[gi as int].0 == pos,
            gi > 0 ==> groups@[gi - 1].1 == pos,
            gi == groups@.len() ==> pos == len,
            pos <= len,
            plan_prefix(d, out_dir@, pos as nat) == Ok::<Seq<CmdView>, ErrorView>(cmd_views(cmds@)),
        decreases groups@.len() - gi,
    {
        let (s, e) = groups[gi];
        proof {
            lemma_group_starts(d, groups@, compare, gi as int);
        }
        let label = match group_label(&sorted[s].captured_at) {
            Ok(l) => l,
            Err(err) => {
                proof {
                    assert(group_start(d, s as int) == s);
                    assert(plan_prefix(d, out_dir@, (s + 1) as nat) == Err::<Seq<CmdView>, ErrorView>(err@));
                    lemma_plan_fails_on(d, out_dir@, (s + 1) as nat, len as nat);
                }
                return Err(err);
            },
        };
        let dir = join_path(out_dir, label.as_str());
        let ghost before = cmds@;
        cmds.push(Cmd::CreateDirectory(dir.clone()));
        proof {
            assert(cmd_views(cmds@) =~= cmd_views(before) + seq![CmdView::CreateDirectory(dir@)]);
        }
        match plan_group(&sorted, s, e, &label, &dir, out_dir, &mut cmds) {
            Ok(()) => {},
            Err(err) => {
                proof {
                    lemma_plan_fails_on(d, out_dir@, e as nat, len as nat);
                }
                return Err(err);
            },
        }
        pos = e;
        gi = gi + 1;
    }
    Ok(cmds)
}

/// Photos in order of capture time, unknown times first.
pub open spec fn sorted_by_time(s: Seq<AnnotatedPhoto>) -> bool {
    forall|a: int, b: int| 0 <= a < b < s.len() ==> taken_le(#[trigger] s[a].captured_at, #[trigger] s[b].captured_at)
}

proof fn lemma_insert_elems(t: Seq<AnnotatedPhoto>, x: AnnotatedPhoto)
    ensures
        insert_by_time(t, x).len() == t.len() + 1,
        forall|i: int|
            0 <= i < insert_by_time(t, x).len() ==> #[trigger] insert_by_time(t, x)[i] == x || exists|j: int|
                0 <= j < t.len() && t[j] == insert_by_time(t, x)[i],
    decreases t.len(),
{
    if t.len() > 0 && !taken_le(t.last().captured_at, x.captured_at) {
        let u = t.drop_last();
        lemma_insert_elems(u, x);
        let r = insert_by_time(t, x);
        assert forall|i: int| 0 <= i < r.len() implies #[trigger] r[i] == x || exists|j: int|
            0 <= j < t.len() && t[j] == r[i] by {
            if i < r.len() - 1 {
                assert(r[i] == insert_by_time(u, x)[i]);
                if r[i] != x {
                    let j = choose|j: int| 0 <= j < u.len() && u[j] == insert_by_time(u, x)[i];
                    assert(t[j] == u[j]);
                }
            } else {
                assert(t[t.len() - 1] == r[i]);
            }
        }
    } else if t.len() > 0 {
        let r = insert_by_time(t, x);
        assert forall|i: int| 0 <= i < r.len() implies #[trigger] r[i] == x || exists|j: int|
            0 <= j < t.len() && t[j] == r[i] by {
            if i < t.len() {
                assert(t[i] == r[i]);
            }
        }
    }
}

proof fn lemma_insert_sorted(t: Seq<AnnotatedPhoto>, x: AnnotatedPhoto)
    requires
        sorted_by_time(t),
    ensures
        sorted_by_time(insert_by_time(t, x)),
    decreases t.len(),
{
    if t.len() > 0 {
        let r = insert_by_time(t, x);
        if taken_le(t.last().captured_at, x.captured_at) {
            assert forall|a: int, b: int| 0 <= a < b < r.len() implies taken_le(
                #[trigger] r[a].captured_at,
                #[trigger] r[b].captured_at,
            ) by {
                if b == t.len() {
                    assert(r[a] == t[a]);
                    if a < t.len() - 1 {
                        assert(taken_le(t[a].captured_at, t[t.len() - 1].captured_at));
                    }
                } else {
                    assert(r[a] == t[a]);
                    assert(r[b] == t[b]);
                }
            }
        } else {
            let u = t.drop_last();
            assert forall|a: int, b: int| 0 <= a < b < u.len() implies taken_le(
                #[trigger] u[a].captured_at,
                #[trigger] u[b].captured_at,
            ) by {
                assert(u[a] == t[a]);
                assert(u[b] == t[b]);
            }
            lemma_insert_sorted(u, x);
            lemma_insert_elems(u, x);
            let v = insert_by_time(u, x);
            assert forall|a: int, b: int| 0 <= a < b < r.len() implies taken_le(
                #[trigger] r[a].captured_at,
                #[trigger] r[b].captured_at,
            ) by {
                assert(r[a] == v[a]);
                if b == r.len() - 1 {
                    assert(r[b] == t.last());
                    if v[a] != x {
                        let j = choose|j: int| 0 <= j < u.len() && u[j] == v[a];
                        assert(taken_le(t[j].captured_at, t[t.len() - 1].captured_at));
                    }
                } else {
                    assert(r[b] == v[b]);
                }
            }
        }
    }
}

/// Sorting by capture time puts photos in order of capture time, unknown
/// times first.
pub proof fn lemma_sorted_by_time(dated: Seq<AnnotatedPhoto>)
    ensures
        sorted_by_time(sort_by_time(dated)),
        sort_by_time(dated).len() == dated.len(),
    decreases dated.len(),
{
    if dated.len() > 0 {
        lemma_sorted_by_time(dated.drop_last());
        lemma_insert_sorted(sort_by_time(dated.drop_last()), dated.last());
        lemma_insert_elems(sort_by_time(dated.drop_last()), dated.last());
    }
}

/// Once sorted by capture time, the photos of one calendar date stand
/// together, and so do all photos without a date: whatever lies between two
/// photos of one date (or two undated photos) shares that date (or has none).
/// So each date, and the absence of a date, gets a single run and a single
/// directory, in order of capture time.
pub proof fn lemma_one_run_per_date(dated: Seq<AnnotatedPhoto>, a: int, m: int, b: int)
    requires
        0 <= a < m < b < dated.len(),
        same_day(sort_by_time(dated)[a].captured_at, sort_by_time(dated)[b].captured_at),
    ensures
        same_day(sort_by_time(dated)[m].captured_at, sort_by_time(dated)[a].captured_at),
        taken_le(sort_by_time(dated)[a].captured_at, sort_by_time(dated)[m].captured_at),
        taken_le(sort_by_time(dated)[m].captured_at, sort_by_time(dated)[b].captured_at),
{
    lemma_sorted_by_time(dated);
    let s = sort_by_time(dated);
    assert(taken_le(s[a].captured_at, s[m].captured_at));
    assert(taken_le(s[m].captured_at, s[b].captured_at));
}

/// Planning twice on the same photos and directory gives the same steps.
pub proof fn lemma_plan_repeatable(
    dated1: Seq<AnnotatedPhoto>,
    dated2: Seq<AnnotatedPhoto>,
    out1: Seq<char>,
    out2: Seq<char>,
)
    requires
        dated1 == dated2,
        out1 == out2,
    ensures
        plan_by_date(dated1, out1) == plan_by_date(dated2, out2),
{
}

proof fn lemma_start_same_day(s: Seq<AnnotatedPhoto>, k: int)
    requires
        0 <= k < s.len(),
    ensures
        0 <= group_start(s, k) <= k,
        same_day(s[k].captured_at, s[group_start(s, k)].captured_at),
    decreases k,
{
    if k > 0 && same_day(s[k - 1].captured_at, s[k].captured_at) {
        lemma_start_same_day(s, k - 1);
    }
}

proof fn lemma_start_between(s: Seq<AnnotatedPhoto>, i: int, j: int)
    requires
        0 <= i <= j < s.len(),
        forall|m: int| i <= m <= j ==> same_day(#[trigger] s[m].captured_at, s[i].captured_at),
    ensures
        group_start(s, j) == group_start(s, i),
    decreases j - i,
{
    if j > i {
        assert(same_day(s[j - 1].captured_at, s[i].captured_at));
        assert(same_day(s[j].captured_at, s[i].captured_at));
        lemma_start_between(s, i, j - 1);
    }
}

/// Once photos are sorted by capture time, two of them fall into the same run,
/// and so under the same directory with stems numbered within that run,
/// exactly when they were taken on the same calendar date or both have no
/// date. Undated photos all come before dated ones.
pub proof fn lemma_runs_are_dates(dated: Seq<AnnotatedPhoto>, i: int, j: int)
    requires
        0 <= i <= j < dated.len(),
    ensures
        sort_by_time(dated).len() == dated.len(),
        (group_start(sort_by_time(dated), i) == group_start(sort_by_time(dated), j)) <==> same_day(
            sort_by_time(dated)[i].captured_at,
            sort_by_time(dated)[j].captured_at,
        ),
        sort_by_time(dated)[j].captured_at is None ==> sort_by_time(dated)[i].captured_at is None,
{
    lemma_sorted_by_time(dated);
    let s = sort_by_time(dated);
    lemma_start_same_day(s, i);
    lemma_start_same_day(s, j);
    if same_day(s[i].captured_at, s[j].captured_at) {
        assert forall|m: int| i <= m <= j implies same_day(#[trigger] s[m].captured_at, s[i].captured_at) by {
            if i < m < j {
                lemma_one_run_per_date(dated, i, m, j);
            }
        }
        lemma_start_between(s, i, j);
    }
    if i < j {
        assert(taken_le(s[i].captured_at, s[j].captured_at));
    }
}

} // verus!
