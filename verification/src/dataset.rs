//! Usage dataset: the aggregate usage series, one percentile histogram per
//! tracked entity, and a presence index mapping each observed timestamp to
//! the entities active at it.
//!
//! Runtime instance names are folded into stable identifiers by
//! classifying their naming pattern: deployment-style names end in a
//! hexadecimal template hash and a five-character instance suffix,
//! daemonset-style names in an instance suffix alone, statefulset-style
//! names in a single ordinal digit; anything else keeps its raw name.

use vstd::prelude::*;
use crate::histogram::{
    Histogram, HistogramError, HistogramView, spec_empty_hist, spec_max_trackable,
    spec_merge, spec_record, spec_resolution, total_of, wf_hist,
};

verus! {

/// Kind of the controller that manages a runtime instance.
#[derive(Clone, Copy, Debug, PartialEq, Eq, Structural)]
pub enum ControllerType {
    Deployment,
    DaemonSet,
    StatefulSet,
    Other,
}

/// The mathematical content of an entity identifier.
#[verifier::ext_equal]
pub ghost struct ContainerIdView {
    pub namespace: Seq<char>,
    pub controller_type: ControllerType,
    pub controller_id: Seq<char>,
    pub container: Seq<char>,
}

/// Stable identity of a monitored container: its namespace, the kind and
/// stable name of its managing controller, and the container name.
#[derive(Debug)]
pub struct ContainerId {
    pub namespace: String,
    pub controller_type: ControllerType,
    pub controller_id: String,
    pub container: String,
}

impl View for ContainerId {
    type V = ContainerIdView;

    open spec fn view(&self) -> ContainerIdView {
        ContainerIdView {
            namespace: self.namespace@,
            controller_type: self.controller_type,
            controller_id: self.controller_id@,
            container: self.container@,
        }
    }
}

impl PartialEq for ContainerId {
    fn eq(&self, other: &Self) -> (r: bool) {
        let r = self.namespace == other.namespace
            && self.controller_type == other.controller_type
            && self.controller_id == other.controller_id
            && self.container == other.container;
        proof {
            if r {
                assert(self@ =~= other@);
            }
        }
        r
    }
}

impl vstd::std_specs::cmp::PartialEqSpecImpl for ContainerId {
    open spec fn obeys_eq_spec() -> bool {
        true
    }

    open spec fn eq_spec(&self, other: &Self) -> bool {
        self@ == other@
    }
}

impl Clone for ContainerId {
    fn clone(&self) -> (r: Self)
        ensures
            r@ == self@,
    {
        ContainerId {
            namespace: self.namespace.clone(),
            controller_type: self.controller_type,
            controller_id: self.controller_id.clone(),
            container: self.container.clone(),
        }
    }
}

/// One point of a usage series: integer seconds and an integer usage
/// value in fixed units.
#[derive(Clone, Copy, Debug, PartialEq, Eq, Structural)]
#[verifier::ext_equal]
pub struct MetricValue {
    pub timestamp: u64,
    pub value: u64,
}

// ---------------------------------------------------------------------
// Instance-name classification
// ---------------------------------------------------------------------

/// A character the stable part of an instance name may consist of:
/// ASCII letters, digits, underscore or dash.
pub open spec fn is_word_char(c: char) -> bool {
    let u = c as u32;
    (48 <= u && u <= 57) || (65 <= u && u <= 90) || (97 <= u && u <= 122) || u == 95 || u == 45
}

/// A lowercase hexadecimal digit.
pub open spec fn is_lower_hex(c: char) -> bool {
    let u = c as u32;
    (48 <= u && u <= 57) || (97 <= u && u <= 102)
}

/// A lowercase letter or digit.
pub open spec fn is_lower_alnum(c: char) -> bool {
    let u = c as u32;
    (48 <= u && u <= 57) || (97 <= u && u <= 122)
}

/// A decimal digit.
pub open spec fn is_digit_char(c: char) -> bool {
    let u = c as u32;
    48 <= u && u <= 57
}

pub open spec fn wordish_range(s: Seq<char>, from: int, to: int) -> bool {
    forall|k: int| from <= k < to ==> is_word_char(#[trigger] s[k])
}

pub open spec fn hex_range(s: Seq<char>, from: int, to: int) -> bool {
    forall|k: int| from <= k < to ==> is_lower_hex(#[trigger] s[k])
}

pub open spec fn alnum_range(s: Seq<char>, from: int, to: int) -> bool {
    forall|k: int| from <= k < to ==> is_lower_alnum(#[trigger] s[k])
}

/// Index of the last dash before `end`, or -1 if there is none.
pub open spec fn last_dash(s: Seq<char>, end: int) -> int
    decreases end,
{
    if end <= 0 {
        -1
    } else if s[end - 1] == '-' {
        end - 1
    } else {
        last_dash(s, end - 1)
    }
}

/// Deployment-style instance name: a stable name, a dash-separated
/// lowercase-hexadecimal template hash, and a five-character lowercase
/// alphanumeric instance suffix.
pub open spec fn is_deployment_name(s: Seq<char>) -> bool {
    let n = s.len() as int;
    let j = last_dash(s, n - 6);
    &&& n >= 9
    &&& s[n - 6] == '-'
    &&& alnum_range(s, n - 5, n)
    &&& 1 <= j <= n - 8
    &&& hex_range(s, j + 1, n - 6)
    &&& wordish_range(s, 0, j)
}

/// Daemonset-style instance name: a stable name and a five-character
/// lowercase alphanumeric instance suffix.
pub open spec fn is_daemonset_name(s: Seq<char>) -> bool {
    let n = s.len() as int;
    &&& n >= 7
    &&& s[n - 6] == '-'
    &&& alnum_range(s, n - 5, n)
    &&& wordish_range(s, 0, n - 6)
}

/// Statefulset-style instance name: a stable name and a single ordinal
/// digit.
pub open spec fn is_statefulset_name(s: Seq<char>) -> bool {
    let n = s.len() as int;
    &&& n >= 3
    &&& s[n - 2] == '-'
    &&& is_digit_char(s[n - 1])
    &&& wordish_range(s, 0, n - 2)
}

/// Controller kind and stable controller name inferred from an instance
/// name, trying the most specific naming pattern first.
pub open spec fn spec_classify(s: Seq<char>) -> (ControllerType, Seq<char>) {
    let n = s.len() as int;
    if is_deployment_name(s) {
        (ControllerType::Deployment, s.subrange(0, last_dash(s, n - 6)))
    } else if is_daemonset_name(s) {
        (ControllerType::DaemonSet, s.subrange(0, n - 6))
    } else if is_statefulset_name(s) {
        (ControllerType::StatefulSet, s.subrange(0, n - 2))
    } else {
        (ControllerType::Other, s)
    }
}

fn is_word_char_exec(c: char) -> (r: bool)
    ensures
        r == is_word_char(c),
{
    let u = c as u32;
    (48 <= u && u <= 57) || (65 <= u && u <= 90) || (97 <= u && u <= 122) || u == 95 || u == 45
}

fn is_lower_hex_exec(c: char) -> (r: bool)
    ensures
        r == is_lower_hex(c),
{
    let u = c as u32;
    (48 <= u && u <= 57) || (97 <= u && u <= 102)
}

fn is_lower_alnum_exec(c: char) -> (r: bool)
    ensures
        r == is_lower_alnum(c),
{
    let u = c as u32;
    (48 <= u && u <= 57) || (97 <= u && u <= 122)
}

fn check_wordish(s: &str, from: usize, to: usize) -> (r: bool)
    requires
        from <= to <= s@.len(),
    ensures
        r == wordish_range(s@, from as int, to as int),
{
    let mut k = from;
    while k < to
        invariant
            from <= k <= to <= s@.len(),
            wordish_range(s@, from as int, k as int),
        decreases to - k,
    {
        if !is_word_char_exec(s.get_char(k)) {
            return false;
        }
        k = k + 1;
    }
    true
}

fn check_hex(s: &str, from: usize, to: usize) -> (r: bool)
    requires
        from <= to <= s@.len(),
    ensures
        r == hex_range(s@, from as int, to as int),
{
    let mut k = from;
    while k < to
        invariant
            from <= k <= to <= s@.len(),
            hex_range(s@, from as int, k as int),
        decreases to - k,
    {
        if !is_lower_hex_exec(s.get_char(k)) {
            return false;
        }
        k = k + 1;
    }
    true
}

fn check_alnum(s: &str, from: usize, to: usize) -> (r: bool)
    requires
        from <= to <= s@.len(),
    ensures
        r == alnum_range(s@, from as int, to as int),
{
    let mut k = from;
    while k < to
        invariant
            from <= k <= to <= s@.len(),
            alnum_range(s@, from as int, k as int),
        decreases to - k,
    {
        if !is_lower_alnum_exec(s.get_char(k)) {
            return false;
        }
        k = k + 1;
    }
    true
}

fn find_last_dash(s: &str, end: usize) -> (r: Option<usize>)
    requires
        end <= s@.len(),
    ensures
        match r {
            Some(j) => j as int == last_dash(s@, end as int),
            None => last_dash(s@, end as int) == -1,
        },
{
    let mut k = end;
    while k > 0
        invariant
            k <= end <= s@.len(),
            last_dash(s@, end as int) == last_dash(s@, k as int),
        decreases k,
    {
        if s.get_char(k - 1) == '-' {
            return Some(k - 1);
        }
        k = k - 1;
    }
    None
}

/// Infers the controller kind of a runtime instance from its naming
/// pattern, and the stable identifier that survives instance churn: the
/// name with the churning suffix stripped.
pub fn classify_instance_name(pod_name: &str) -> (r: (ControllerType, String))
    ensures
        r.0 == spec_classify(pod_name@).0,
        r.1@ == spec_classify(pod_name@).1,
{
    let n = pod_name.unicode_len();
    if n >= 9 && pod_name.get_char(n - 6) == '-' && check_alnum(pod_name, n - 5, n) {
        if let Some(j) = find_last_dash(pod_name, n - 6) {
            if 1 <= j && j <= n - 8 && check_hex(pod_name, j + 1, n - 6)
                && check_wordish(pod_name, 0, j) {
                return (
                    ControllerType::Deployment,
                    pod_name.substring_char(0, j).to_owned(),
                );
            }
        }
    }
    if n >= 7 && pod_name.get_char(n - 6) == '-' && check_alnum(pod_name, n - 5, n)
        && check_wordish(pod_name, 0, n - 6) {
        return (ControllerType::DaemonSet, pod_name.substring_char(0, n - 6).to_owned());
    }
    if n >= 3 && pod_name.get_char(n - 2) == '-' && {
        let c = pod_name.get_char(n - 1);
        let u = c as u32;
        48 <= u && u <= 57
    } && check_wordish(pod_name, 0, n - 2) {
        return (ControllerType::StatefulSet, pod_name.substring_char(0, n - 2).to_owned());
    }
    (ControllerType::Other, pod_name.to_owned())
}

// ---------------------------------------------------------------------
// The dataset
// ---------------------------------------------------------------------

/// The mathematical content of a usage dataset.
#[verifier::ext_equal]
pub ghost struct MemoryInfoView {
    pub sig_digits: nat,
    pub global: Seq<MetricValue>,
    pub containers: Seq<(ContainerIdView, HistogramView)>,
    pub presence: Seq<(u64, Seq<ContainerIdView>)>,
}

/// Index of the first entry for an identifier, or -1 if there is none.
pub open spec fn find_container(
    cs: Seq<(ContainerIdView, HistogramView)>,
    id: ContainerIdView,
) -> int
    decreases cs.len(),
{
    if cs.len() == 0 {
        -1
    } else if cs[0].0 == id {
        0
    } else {
        let f = find_container(cs.drop_first(), id);
        if f < 0 {
            -1
        } else {
            1 + f
        }
    }
}

/// Index of the first presence entry for a timestamp, or -1 if there is
/// none.
pub open spec fn find_presence(ps: Seq<(u64, Seq<ContainerIdView>)>, ts: u64) -> int
    decreases ps.len(),
{
    if ps.len() == 0 {
        -1
    } else if ps[0].0 == ts {
        0
    } else {
        let f = find_presence(ps.drop_first(), ts);
        if f < 0 {
            -1
        } else {
            1 + f
        }
    }
}

/// No two identifiers in the sequence are equal.
pub open spec fn unique_ids(ids: Seq<ContainerIdView>) -> bool {
    forall|a: int, b: int| 0 <= a < b < ids.len() ==> ids[a] != ids[b]
}

/// A structurally valid dataset: a supported precision, well-formed
/// entity histograms all of that precision, at most one histogram per
/// identifier, at most one presence entry per timestamp, and no
/// identifier listed twice at one timestamp.
pub open spec fn wf_mem(d: MemoryInfoView) -> bool {
    &&& d.sig_digits <= 5
    &&& forall|k: int| 0 <= k < d.containers.len() ==> wf_hist(#[trigger] d.containers[k].1)
        && d.containers[k].1.sig_digits == d.sig_digits
    &&& forall|k: int, l: int| 0 <= k < l < d.containers.len()
        ==> (#[trigger] d.containers[k].0) != (#[trigger] d.containers[l].0)
    &&& forall|k: int, l: int| 0 <= k < l < d.presence.len()
        ==> (#[trigger] d.presence[k].0) != (#[trigger] d.presence[l].0)
    &&& forall|k: int| 0 <= k < d.presence.len() ==> unique_ids(#[trigger] d.presence[k].1)
}

/// Some aggregate sample carries this timestamp.
pub open spec fn ts_in_global(d: MemoryInfoView, ts: u64) -> bool {
    exists|i: int| 0 <= i < d.global.len() && (#[trigger] d.global[i]).timestamp == ts
}

/// Cross-table consistency of a dataset: every identifier listed as
/// present has a histogram entry, and the presence index and the
/// aggregate series cover the same timestamps.  Import preserves the
/// first by construction; a dataset arriving from outside must be
/// checked before it is analyzed.
pub open spec fn consistent_mem(d: MemoryInfoView) -> bool {
    &&& forall|k: int, l: int| 0 <= k < d.presence.len() && 0 <= l < d.presence[k].1.len()
        ==> find_container(d.containers, #[trigger] d.presence[k].1[l]) >= 0
    &&& forall|k: int| 0 <= k < d.presence.len() ==> #[trigger] ts_in_global(d, d.presence[k].0)
    &&& forall|i: int| 0 <= i < d.global.len() ==> find_presence(
        d.presence,
        (#[trigger] d.global[i]).timestamp,
    ) >= 0
}

/// Histogram holding the values of the first `n` samples on top of `h`.
pub open spec fn spec_record_values(
    h: HistogramView,
    samples: Seq<MetricValue>,
    n: int,
) -> HistogramView
    decreases n,
{
    if n <= 0 {
        h
    } else {
        spec_record(spec_record_values(h, samples, n - 1), samples[n - 1].value as int)
    }
}

/// The presence index after marking `id` present at `ts`: a new entry for
/// an unseen timestamp, an unchanged index if `id` is already listed, and
/// one more listed identifier otherwise.
pub open spec fn spec_mark_present(
    ps: Seq<(u64, Seq<ContainerIdView>)>,
    ts: u64,
    id: ContainerIdView,
) -> Seq<(u64, Seq<ContainerIdView>)> {
    let k = find_presence(ps, ts);
    if k < 0 {
        ps.push((ts, seq![id]))
    } else if ps[k].1.contains(id) {
        ps
    } else {
        ps.update(k, (ts, ps[k].1.push(id)))
    }
}

/// The presence index after marking `id` present at the timestamps of the
/// first `n` samples, in order.
pub open spec fn spec_presence_after(
    ps: Seq<(u64, Seq<ContainerIdView>)>,
    id: ContainerIdView,
    samples: Seq<MetricValue>,
    n: int,
) -> Seq<(u64, Seq<ContainerIdView>)>
    decreases n,
{
    if n <= 0 {
        ps
    } else {
        spec_mark_present(spec_presence_after(ps, id, samples, n - 1), samples[n - 1].timestamp, id)
    }
}

/// The dataset after importing one instance's series for `id`: the
/// samples' histogram is merged into the entity's (or becomes it), and
/// the entity is marked present at every sampled timestamp.
pub open spec fn spec_add_series(
    d: MemoryInfoView,
    id: ContainerIdView,
    samples: Seq<MetricValue>,
) -> MemoryInfoView {
    let series = spec_record_values(spec_empty_hist(d.sig_digits), samples, samples.len() as int);
    let j = find_container(d.containers, id);
    let containers = if j >= 0 {
        d.containers.update(j, (d.containers[j].0, spec_merge(d.containers[j].1, series)))
    } else {
        d.containers.push((id, series))
    };
    MemoryInfoView {
        containers,
        presence: spec_presence_after(d.presence, id, samples, samples.len() as int),
        ..d
    }
}

/// In-memory usage dataset: the unit of import, persistence and
/// analysis.
pub struct MemoryInfo {
    sig_digits: u8,
    global: Vec<MetricValue>,
    containers: Vec<(ContainerId, Histogram)>,
    container_presence: Vec<(u64, Vec<ContainerId>)>,
}

/// View of one presence entry.
pub open spec fn presence_entry_view(e: (u64, Vec<ContainerId>)) -> (u64, Seq<ContainerIdView>) {
    (e.0, Seq::new(e.1@.len(), |l: int| e.1@[l]@))
}

impl View for MemoryInfo {
    type V = MemoryInfoView;

    closed spec fn view(&self) -> MemoryInfoView {
        MemoryInfoView {
            sig_digits: self.sig_digits as nat,
            global: self.global@,
            containers: Seq::new(
                self.containers@.len(),
                |k: int| (self.containers@[k].0@, self.containers@[k].1@),
            ),
            presence: Seq::new(
                self.container_presence@.len(),
                |k: int| presence_entry_view(self.container_presence@[k]),
            ),
        }
    }
}

impl MemoryInfo {
    /// Structural validity of the dataset and of every histogram in it.
    pub closed spec fn well_formed(self) -> bool {
        &&& wf_mem(self@)
        &&& forall|k: int| 0 <= k < self.containers@.len()
            ==> (#[trigger] self.containers@[k].1).well_formed()
    }

    /// A well-formed dataset has a structurally valid view.
    pub proof fn lemma_well_formed_view(&self)
        requires
            self.well_formed(),
        ensures
            wf_mem(self@),
    {
    }

    /// Creates an empty dataset whose histograms will keep `sig_digits`
    /// significant decimal digits; precisions above 5 digits are refused.
    pub fn new(sig_digits: u8) -> (result: Result<MemoryInfo, HistogramError>)
        ensures
            sig_digits <= 5 ==> {
                &&& result is Ok
                &&& result.unwrap().well_formed()
                &&& result.unwrap()@ == (MemoryInfoView {
                    sig_digits: sig_digits as nat,
                    global: Seq::<MetricValue>::empty(),
                    containers: Seq::<(ContainerIdView, HistogramView)>::empty(),
                    presence: Seq::<(u64, Seq<ContainerIdView>)>::empty(),
                })
            },
            sig_digits > 5 ==> result == Err::<MemoryInfo, HistogramError>(
                HistogramError::InvalidPrecision,
            ),
    {
        if sig_digits > 5 {
            return Err(HistogramError::InvalidPrecision);
        }
        let d = MemoryInfo {
            sig_digits,
            global: Vec::new(),
            containers: Vec::new(),
            container_presence: Vec::new(),
        };
        proof {
            assert(d@ =~= MemoryInfoView {
                sig_digits: sig_digits as nat,
                global: Seq::<MetricValue>::empty(),
                containers: Seq::<(ContainerIdView, HistogramView)>::empty(),
                presence: Seq::<(u64, Seq<ContainerIdView>)>::empty(),
            });
        }
        Ok(d)
    }

    /// The configured number of significant decimal digits.
    pub fn precision_digits(&self) -> (d: u8)
        requires
            self.well_formed(),
        ensures
            d as nat == self@.sig_digits,
    {
        self.sig_digits
    }

    /// Appends one point of total observed usage to the aggregate series.
    pub fn push_global(&mut self, timestamp: u64, value: u64)
        requires
            old(self).well_formed(),
        ensures
            final(self).well_formed(),
            final(self)@ == (MemoryInfoView {
                global: old(self)@.global.push(MetricValue { timestamp, value }),
                ..old(self)@
            }),
    {
        self.global.push(MetricValue { timestamp, value });
        proof {
            assert(self@ =~= (MemoryInfoView {
                global: old(self)@.global.push(MetricValue { timestamp, value }),
                ..old(self)@
            }));
        }
    }

    /// The aggregate usage series in import order.
    pub fn global_series(&self) -> (r: &Vec<MetricValue>)
        ensures
            r@ == self@.global,
    {
        &self.global
    }

    /// Number of tracked entities.
    pub fn container_count(&self) -> (n: usize)
        ensures
            n == self@.containers.len(),
    {
        self.containers.len()
    }

    /// The identifier and histogram of the entity at a position.
    pub fn container_at(&self, k: usize) -> (r: &(ContainerId, Histogram))
        requires
            self.well_formed(),
            k < self@.containers.len(),
        ensures
            r.0@ == self@.containers[k as int].0,
            r.1@ == self@.containers[k as int].1,
            r.1.well_formed(),
    {
        &self.containers[k]
    }

    /// Number of presence entries.
    pub fn presence_count(&self) -> (n: usize)
        ensures
            n == self@.presence.len(),
    {
        self.container_presence.len()
    }

    /// The timestamp and identifier list of the presence entry at a
    /// position.
    pub fn presence_at(&self, k: usize) -> (r: &(u64, Vec<ContainerId>))
        requires
            k < self@.presence.len(),
        ensures
            r.0 == self@.presence[k as int].0,
            r.1@.len() == self@.presence[k as int].1.len(),
            forall|l: int| 0 <= l < r.1@.len() ==> (#[trigger] r.1@[l])@
                == self@.presence[k as int].1[l],
    {
        &self.container_presence[k]
    }

    /// The histogram recorded for an identifier, if any.
    pub fn histogram_for(&self, id: &ContainerId) -> (r: Option<&Histogram>)
        requires
            self.well_formed(),
        ensures
            match r {
                Some(h) => {
                    &&& find_container(self@.containers, id@) >= 0
                    &&& h@ == self@.containers[find_container(self@.containers, id@)].1
                    &&& h.well_formed()
                },
                None => find_container(self@.containers, id@) == -1,
            },
    {
        proof {
            lemma_find_container_props(self@.containers, id@);
        }
        let n = self.containers.len();
        let mut k: usize = 0;
        while k < n
            invariant
                self.well_formed(),
                n == self@.containers.len(),
                k <= n,
                forall|l: int| 0 <= l < k ==> (#[trigger] self@.containers[l].0) != id@,
            decreases n - k,
        {
            if self.containers[k].0 == *id {
                proof {
                    lemma_find_container_props(self@.containers, id@);
                    assert(self@.containers[k as int].0 == id@);
                    let f = find_container(self@.containers, id@);
                    if f == -1 {
                        assert(self@.containers[k as int].0 != id@);
                    } else if f < k as int {
                        assert(self@.containers[f].0 != id@);
                        assert(self@.containers[f].0 == id@);
                    } else if f > k as int {
                        assert(self@.containers[k as int].0 != id@);
                    }
                    assert(f == k as int);
                }
                return Some(&self.containers[k].1);
            }
            k = k + 1;
        }
        None
    }

    /// The identifiers present at a timestamp, if any were recorded.
    pub fn presence_for(&self, timestamp: u64) -> (r: Option<&Vec<ContainerId>>)
        ensures
            match r {
                Some(ids) => {
                    &&& find_presence(self@.presence, timestamp) >= 0
                    &&& Seq::new(ids@.len(), |l: int| ids@[l]@)
                        == self@.presence[find_presence(self@.presence, timestamp)].1
                },
                None => find_presence(self@.presence, timestamp) == -1,
            },
    {
        proof {
            lemma_find_presence_props(self@.presence, timestamp);
        }
        let n = self.container_presence.len();
        let mut k: usize = 0;
        while k < n
            invariant
                n == self@.presence.len(),
                n == self.container_presence@.len(),
                k <= n,
                forall|l: int| 0 <= l < k ==> (#[trigger] self@.presence[l].0) != timestamp,
            decreases n - k,
        {
            if self.container_presence[k].0 == timestamp {
                proof {
                    lemma_find_presence_props(self@.presence, timestamp);
                    assert(self@.presence[k as int].0 == timestamp);
                }
                return Some(&self.container_presence[k].1);
            }
            proof {
                assert(self@.presence[k as int].0 == self.container_presence@[k as int].0);
            }
            k = k + 1;
        }
        None
    }
}

impl MemoryInfo {
    /// Position of an identifier's histogram, if one exists.
    fn container_position(&self, id: &ContainerId) -> (r: Option<usize>)
        requires
            self.well_formed(),
        ensures
            match r {
                Some(k) => k as int == find_container(self@.containers, id@),
                None => find_container(self@.containers, id@) == -1,
            },
    {
        let n = self.containers.len();
        let mut k: usize = 0;
        while k < n
            invariant
                self.well_formed(),
                n == self@.containers.len(),
                k <= n,
                forall|l: int| 0 <= l < k ==> (#[trigger] self@.containers[l].0) != id@,
            decreases n - k,
        {
            if self.containers[k].0 == *id {
                proof {
                    lemma_find_container_props(self@.containers, id@);
                    assert(self@.containers[k as int].0 == id@);
                    let f = find_container(self@.containers, id@);
                    if f == -1 {
                        assert(self@.containers[k as int].0 != id@);
                    } else if f < k as int {
                        assert(self@.containers[f].0 != id@);
                        assert(self@.containers[f].0 == id@);
                    } else if f > k as int {
                        assert(self@.containers[k as int].0 != id@);
                    }
                    assert(f == k as int);
                }
                return Some(k);
            }
            k = k + 1;
        }
        proof {
            lemma_find_container_props(self@.containers, id@);
        }
        None
    }

    /// Marks an identifier present at a timestamp, keeping each
    /// timestamp's identifier list free of repetitions.
    #[verifier::loop_isolation(false)]
    fn mark_present(&mut self, timestamp: u64, id: &ContainerId)
        requires
            old(self).well_formed(),
        ensures
            final(self).well_formed(),
            final(self)@ == (MemoryInfoView {
                presence: spec_mark_present(old(self)@.presence, timestamp, id@),
                ..old(self)@
            }),
    {
        proof {
            lemma_find_presence_props(self@.presence, timestamp);
        }
        let ghost target = spec_mark_present(old(self)@.presence, timestamp, id@);
        let n = self.container_presence.len();
        let mut k: usize = 0;
        while k < n
            invariant
                self == old(self),
                self.well_formed(),
                n == self@.presence.len(),
                k <= n,
                forall|l: int| 0 <= l < k ==> (#[trigger] self@.presence[l].0) != timestamp,
            decreases n - k,
        {
            if self.container_presence[k].0 == timestamp {
                proof {
                    lemma_find_presence_props(self@.presence, timestamp);
                    assert(self@.presence[k as int].0 == timestamp);
                    let f = find_presence(self@.presence, timestamp);
                    if f == -1 {
                        assert(self@.presence[k as int].0 != timestamp);
                    } else if f < k as int {
                        assert(self@.presence[f].0 != timestamp);
                        assert(self@.presence[f].0 == timestamp);
                    } else if f > k as int {
                        assert(self@.presence[k as int].0 != timestamp);
                    }
                    assert(f == k as int);
                }
                // is the identifier already listed at this timestamp?
                let list_len = self.container_presence[k].1.len();
                let mut l: usize = 0;
                while l < list_len
                    invariant
                        self == old(self),
                        self.well_formed(),
                        k < self@.presence.len(),
                        k < self.container_presence@.len(),
                        list_len == self@.presence[k as int].1.len(),
                        list_len == self.container_presence@[k as int].1@.len(),
                        l <= list_len,
                        k as int == find_presence(self@.presence, timestamp),
                        self@.presence[k as int].0 == timestamp,
                        forall|m: int| 0 <= m < l
                            ==> (#[trigger] self@.presence[k as int].1[m]) != id@,
                    decreases list_len - l,
                {
                    if self.container_presence[k].1[l] == *id {
                        proof {
                            assert(self@.presence[k as int].1[l as int] == id@);
                            assert(self@.presence[k as int].1.contains(id@));
                            assert(find_presence(old(self)@.presence, timestamp) == k as int);
                            assert(old(self)@.presence[k as int].1.contains(id@));
                            assert(target == old(self)@.presence);
                            assert(self@.presence =~~= target);
                            assert(self@ =~~= (MemoryInfoView {
                                presence: target,
                                ..old(self)@
                            }));
                        }
                        return ;
                    }
                    proof {
                        assert(self@.presence[k as int].1[l as int]
                            == self.container_presence@[k as int].1@[l as int]@);
                    }
                    l = l + 1;
                }
                proof {
                    assert(!self@.presence[k as int].1.contains(id@)) by {
                        if self@.presence[k as int].1.contains(id@) {
                            let m = choose|m: int| 0 <= m < self@.presence[k as int].1.len()
                                && self@.presence[k as int].1[m] == id@;
                            assert(self@.presence[k as int].1[m] != id@);
                        }
                    }
                }
                self.container_presence[k].1.push(id.clone());
                proof {
                    let oldv = old(self)@;
                    assert(find_presence(oldv.presence, timestamp) == k as int);
                    assert(!oldv.presence[k as int].1.contains(id@));
                    assert(target == oldv.presence.update(
                        k as int,
                        (timestamp, oldv.presence[k as int].1.push(id@)),
                    ));
                    assert(self@.presence[k as int]
                        =~~= (timestamp, oldv.presence[k as int].1.push(id@)));
                    assert(self@.presence =~~= target);
                    assert(self@ =~~= (MemoryInfoView { presence: target, ..oldv }));
                    assert(unique_ids(self@.presence[k as int].1)) by {
                        let ids = oldv.presence[k as int].1;
                        assert forall|a: int, b: int|
                            0 <= a < b < ids.push(id@).len() implies ids.push(id@)[a]
                            != ids.push(id@)[b] by {
                            if b < ids.len() {
                                assert(ids[a] != ids[b]);
                            } else {
                                assert(!ids.contains(id@));
                                assert(ids.push(id@)[a] == ids[a]);
                                if ids[a] == id@ {
                                    assert(ids.contains(id@));
                                }
                            }
                        }
                    }
                    assert forall|x: int| 0 <= x < self@.presence.len() implies unique_ids(
                        #[trigger] self@.presence[x].1) by {
                        if x != k as int {
                            assert(self@.presence[x] == oldv.presence[x]);
                        }
                    }
                }
                return ;
            }
            proof {
                assert(self@.presence[k as int].0 == self.container_presence@[k as int].0);
            }
            k = k + 1;
        }
        proof {
            lemma_find_presence_props(self@.presence, timestamp);
            assert(find_presence(self@.presence, timestamp) == -1);
        }
        let mut ids: Vec<ContainerId> = Vec::new();
        ids.push(id.clone());
        self.container_presence.push((timestamp, ids));
        proof {
            let oldv = old(self)@;
            assert(self@.presence[oldv.presence.len() as int]
                =~~= (timestamp, seq![id@]));
            assert(self@.presence =~~= oldv.presence.push((timestamp, seq![id@])));
            assert(self@.presence =~~= target);
            assert(self@ =~~= (MemoryInfoView { presence: target, ..oldv }));
            assert forall|x: int, y: int| 0 <= x < y < self@.presence.len() implies (
                #[trigger] self@.presence[x].0) != (#[trigger] self@.presence[y].0) by {
                if y < oldv.presence.len() {
                    assert(oldv.presence[x].0 != oldv.presence[y].0);
                } else {
                    assert(self@.presence[y].0 == timestamp);
                    assert(oldv.presence[x].0 != timestamp);
                }
            }
            assert forall|x: int| 0 <= x < self@.presence.len() implies unique_ids(
                #[trigger] self@.presence[x].1) by {
                if x < oldv.presence.len() {
                    assert(self@.presence[x] == oldv.presence[x]);
                }
            }
        }
    }

    /// Imports one runtime instance's sample series: classifies the
    /// instance name into a stable identifier, folds the sampled values
    /// into that identifier's histogram, and marks it present at every
    /// sampled timestamp.  Fails without changing the dataset if a value
    /// is beyond the trackable range or a sample counter would overflow.
    #[verifier::loop_isolation(false)]
    pub fn add_instance_series(
        &mut self,
        namespace: &str,
        pod_name: &str,
        container: &str,
        samples: &Vec<MetricValue>,
    ) -> (result: Result<(), HistogramError>)
        requires
            old(self).well_formed(),
        ensures
            final(self).well_formed(),
            ({
                let idv = ContainerIdView {
                    namespace: namespace@,
                    controller_type: spec_classify(pod_name@).0,
                    controller_id: spec_classify(pod_name@).1,
                    container: container@,
                };
                let maxv = spec_max_trackable(spec_resolution(old(self)@.sig_digits) as int);
                let j = find_container(old(self)@.containers, idv);
                let prev = if j >= 0 {
                    total_of(old(self)@.containers[j].1)
                } else {
                    0
                };
                &&& (result == Err::<(), HistogramError>(HistogramError::ValueOutOfRange)
                    <==> exists|k: int|
                    0 <= k < samples@.len() && (#[trigger] samples@[k]).value > maxv)
                &&& (result == Err::<(), HistogramError>(HistogramError::CapacityExceeded)
                    <==> ((forall|k: int|
                    0 <= k < samples@.len() ==> (#[trigger] samples@[k]).value <= maxv)
                    && prev + samples@.len() > u64::MAX))
                &&& (result is Ok ==> final(self)@ == spec_add_series(old(self)@, idv, samples@))
                &&& (result is Err ==> final(self)@ == old(self)@)
            }),
    {
        let ghost oldv = old(self)@;
        let ghost maxv = spec_max_trackable(spec_resolution(oldv.sig_digits) as int);
        let (controller_type, controller_id) = classify_instance_name(pod_name);
        let id = ContainerId {
            namespace: namespace.to_owned(),
            controller_type,
            controller_id,
            container: container.to_owned(),
        };
        let ghost idv = ContainerIdView {
            namespace: namespace@,
            controller_type: spec_classify(pod_name@).0,
            controller_id: spec_classify(pod_name@).1,
            container: container@,
        };
        proof {
            assert(id@ =~= idv);
        }
        let mut series = match Histogram::new(self.sig_digits) {
            Ok(h) => h,
            Err(_) => vstd::pervasive::unreached(),
        };
        let sample_count = samples.len();
        let mut k: usize = 0;
        while k < sample_count
            invariant
                self == old(self),
                self.well_formed(),
                oldv == old(self)@,
                maxv == spec_max_trackable(spec_resolution(oldv.sig_digits) as int),
                sample_count == samples@.len(),
                k <= sample_count,
                series.well_formed(),
                series@.sig_digits == oldv.sig_digits,
                series@ == spec_record_values(spec_empty_hist(oldv.sig_digits), samples@, k as int),
                total_of(series@) == k,
                forall|l: int| 0 <= l < k ==> (#[trigger] samples@[l]).value <= maxv,
            decreases sample_count - k,
        {
            let v = samples[k].value;
            match series.record(v) {
                Ok(_) => {},
                Err(_) => {
                    return Err(HistogramError::ValueOutOfRange);
                },
            }
            k = k + 1;
        }
        let ghost series_view = spec_record_values(
            spec_empty_hist(oldv.sig_digits),
            samples@,
            samples@.len() as int,
        );
        match self.container_position(&id) {
            Some(j) => {
                proof {
                    lemma_find_container_props(oldv.containers, idv);
                }
                let existing_total = {
                    let pair = &self.containers[j];
                    pair.1.total_count()
                };
                if sample_count as u64 > u64::MAX - existing_total {
                    return Err(HistogramError::CapacityExceeded);
                }
                let merged = self.containers[j].1.merge(&series);
                match merged {
                    Ok(_) => {},
                    Err(_) => {
                        proof {
                            assert(false);
                        }
                    },
                }
                proof {
                    self.containers@[j as int].1.lemma_well_formed_view();
                    assert(self@.containers =~= oldv.containers.update(
                        j as int,
                        (oldv.containers[j as int].0, spec_merge(
                            oldv.containers[j as int].1,
                            series_view,
                        )),
                    ));
                    assert forall|x: int| 0 <= x < self.containers@.len() implies (
                        #[trigger] self.containers@[x].1).well_formed() by {
                        if x != j as int {
                            assert(self.containers@[x] == old(self).containers@[x]);
                        }
                    }
                    assert forall|x: int| 0 <= x < self@.containers.len() implies wf_hist(
                        #[trigger] self@.containers[x].1) && self@.containers[x].1.sig_digits
                        == self@.sig_digits by {
                        if x != j as int {
                            assert(self@.containers[x] == oldv.containers[x]);
                        }
                    }
                    assert forall|x: int, y: int| 0 <= x < y < self@.containers.len() implies (
                        #[trigger] self@.containers[x].0) != (#[trigger] self@.containers[y].0) by {
                        assert(self@.containers[x].0 == oldv.containers[x].0);
                        assert(self@.containers[y].0 == oldv.containers[y].0);
                    }
                }
            },
            None => {
                proof {
                    series.lemma_well_formed_view();
                }
                self.containers.push((id.clone(), series));
                proof {
                    assert(self@.containers =~= oldv.containers.push((idv, series_view)));
                    lemma_find_container_props(oldv.containers, idv);
                    assert forall|x: int| 0 <= x < self.containers@.len() implies (
                        #[trigger] self.containers@[x].1).well_formed() by {
                        if x < old(self).containers@.len() {
                            assert(self.containers@[x] == old(self).containers@[x]);
                        }
                    }
                    assert forall|x: int| 0 <= x < self@.containers.len() implies wf_hist(
                        #[trigger] self@.containers[x].1) && self@.containers[x].1.sig_digits
                        == self@.sig_digits by {
                        if x < oldv.containers.len() {
                            assert(self@.containers[x] == oldv.containers[x]);
                        }
                    }
                    assert forall|x: int, y: int| 0 <= x < y < self@.containers.len() implies (
                        #[trigger] self@.containers[x].0) != (#[trigger] self@.containers[y].0) by {
                        if y < oldv.containers.len() {
                            assert(self@.containers[x].0 == oldv.containers[x].0);
                            assert(self@.containers[y].0 == oldv.containers[y].0);
                        } else {
                            assert(self@.containers[y].0 == idv);
                            assert(self@.containers[x].0 == oldv.containers[x].0);
                        }
                    }
                }
            },
        }
        let ghost mid = self@;
        proof {
            assert(mid.containers == spec_add_series(oldv, idv, samples@).containers);
            assert(mid.presence == oldv.presence);
            assert(mid.global == oldv.global);
            assert(mid.sig_digits == oldv.sig_digits);
        }
        let mut k: usize = 0;
        while k < sample_count
            invariant
                self.well_formed(),
                sample_count == samples@.len(),
                k <= sample_count,
                self@.sig_digits == mid.sig_digits,
                self@.global == mid.global,
                self@.containers == mid.containers,
                self@.presence == spec_presence_after(oldv.presence, idv, samples@, k as int),
                id@ == idv,
            decreases sample_count - k,
        {
            let ts = samples[k].timestamp;
            self.mark_present(ts, &id);
            k = k + 1;
        }
        proof {
            assert(self@ =~= spec_add_series(oldv, idv, samples@));
        }
        Ok(())
    }
}

impl MemoryInfo {
    /// Rebuilds a dataset from a snapshot's parts.  Accepts exactly the
    /// combinations that a dataset built by import can reach: a
    /// supported precision, histograms of that precision, one histogram
    /// per identifier, one presence entry per timestamp, and no
    /// identifier listed twice at one timestamp.
    pub(crate) fn from_parts(
        sig_digits: u8,
        global: Vec<MetricValue>,
        containers: Vec<(ContainerId, Histogram)>,
        container_presence: Vec<(u64, Vec<ContainerId>)>,
    ) -> (result: Result<MemoryInfo, HistogramError>)
        requires
            forall|k: int| 0 <= k < containers@.len()
                ==> (#[trigger] containers@[k].1).well_formed(),
        ensures
            result is Ok <==> {
                &&& sig_digits <= 5
                &&& (forall|k: int| 0 <= k < containers@.len()
                    ==> (#[trigger] containers@[k].1)@.sig_digits == sig_digits as nat)
                &&& (forall|k: int, l: int| 0 <= k < l < containers@.len()
                    ==> (#[trigger] containers@[k].0)@ != (#[trigger] containers@[l].0)@)
                &&& (forall|k: int, l: int| 0 <= k < l < container_presence@.len()
                    ==> (#[trigger] container_presence@[k]).0
                    != (#[trigger] container_presence@[l]).0)
                &&& (forall|k: int| 0 <= k < container_presence@.len() ==> unique_ids(
                    presence_entry_view(#[trigger] container_presence@[k]).1,
                ))
            },
            result is Ok ==> {
                &&& result.unwrap().well_formed()
                &&& result.unwrap()@ == (MemoryInfoView {
                    sig_digits: sig_digits as nat,
                    global: global@,
                    containers: Seq::new(
                        containers@.len(),
                        |k: int| (containers@[k].0@, containers@[k].1@),
                    ),
                    presence: Seq::new(
                        container_presence@.len(),
                        |k: int| presence_entry_view(container_presence@[k]),
                    ),
                })
            },
    {
        if sig_digits > 5 {
            return Err(HistogramError::InvalidPrecision);
        }
        let n = containers.len();
        let mut k: usize = 0;
        while k < n
            invariant
                n == containers@.len(),
                k <= n,
                forall|a: int| 0 <= a < containers@.len()
                    ==> (#[trigger] containers@[a].1).well_formed(),
                forall|a: int| 0 <= a < k ==> (#[trigger] containers@[a].1)@.sig_digits
                    == sig_digits as nat,
                forall|a: int, b: int| 0 <= a < b < k
                    ==> (#[trigger] containers@[a].0)@ != (#[trigger] containers@[b].0)@,
            decreases n - k,
        {
            if containers[k].1.precision_digits() != sig_digits {
                proof {
                    assert(containers@[k as int].1@.sig_digits != sig_digits as nat);
                }
                return Err(HistogramError::IncompatibleConfiguration);
            }
            let mut l: usize = 0;
            while l < k
                invariant
                    n == containers@.len(),
                    l <= k < n,
                    forall|a: int, b: int| 0 <= a < b < k
                        ==> (#[trigger] containers@[a].0)@ != (#[trigger] containers@[b].0)@,
                    forall|a: int| 0 <= a < l
                        ==> (#[trigger] containers@[a].0)@ != containers@[k as int].0@,
                decreases k - l,
            {
                if containers[l].0 == containers[k].0 {
                    proof {
                        assert(containers@[l as int].0@ == containers@[k as int].0@);
                    }
                    return Err(HistogramError::IncompatibleConfiguration);
                }
                l = l + 1;
            }
            k = k + 1;
        }
        let np = container_presence.len();
        let mut k: usize = 0;
        while k < np
            invariant
                np == container_presence@.len(),
                k <= np,
                forall|a: int, b: int| 0 <= a < b < k
                    ==> (#[trigger] container_presence@[a].0)
                    != (#[trigger] container_presence@[b].0),
                forall|a: int| 0 <= a < k ==> unique_ids(
                    presence_entry_view(#[trigger] container_presence@[a]).1,
                ),
            decreases np - k,
        {
            let mut l: usize = 0;
            while l < k
                invariant
                    np == container_presence@.len(),
                    l <= k < np,
                    forall|a: int| 0 <= a < l ==> (#[trigger] container_presence@[a].0)
                        != container_presence@[k as int].0,
                decreases k - l,
            {
                if container_presence[l].0 == container_presence[k].0 {
                    proof {
                        assert(container_presence@[l as int].0
                            == container_presence@[k as int].0);
                    }
                    return Err(HistogramError::IncompatibleConfiguration);
                }
                l = l + 1;
            }
            let ids = &container_presence[k].1;
            let m = ids.len();
            let mut a: usize = 0;
            while a < m
                invariant
                    m == ids@.len(),
                    ids@ == container_presence@[k as int].1@,
                    k < container_presence@.len(),
                    a <= m,
                    forall|x: int, y: int| 0 <= x < y < a
                        ==> (#[trigger] ids@[x])@ != (#[trigger] ids@[y])@,
                decreases m - a,
            {
                let mut b: usize = 0;
                while b < a
                    invariant
                        m == ids@.len(),
                        ids@ == container_presence@[k as int].1@,
                        k < container_presence@.len(),
                        b <= a < m,
                        forall|x: int| 0 <= x < b
                            ==> (#[trigger] ids@[x])@ != ids@[a as int]@,
                    decreases a - b,
                {
                    if ids[b] == ids[a] {
                        proof {
                            let pv = presence_entry_view(container_presence@[k as int]);
                            assert(pv.1[b as int] == ids@[b as int]@);
                            assert(pv.1[a as int] == ids@[a as int]@);
                            assert(!unique_ids(pv.1));
                        }
                        return Err(HistogramError::IncompatibleConfiguration);
                    }
                    b = b + 1;
                }
                a = a + 1;
            }
            proof {
                let pv = presence_entry_view(container_presence@[k as int]);
                assert forall|x: int, y: int| 0 <= x < y < pv.1.len() implies pv.1[x]
                    != pv.1[y] by {
                    assert(pv.1[x] == ids@[x]@);
                    assert(pv.1[y] == ids@[y]@);
                }
            }
            k = k + 1;
        }
        let d = MemoryInfo { sig_digits, global, containers, container_presence };
        proof {
            assert forall|x: int| 0 <= x < d@.containers.len() implies wf_hist(
                #[trigger] d@.containers[x].1) && d@.containers[x].1.sig_digits
                == d@.sig_digits by {
                d.containers@[x].1.lemma_well_formed_view();
            }
        }
        Ok(d)
    }

    /// Checks the cross-table consistency that analysis assumes: every
    /// identifier listed as present has a histogram, and the presence
    /// index and the aggregate series cover the same timestamps.  A
    /// dataset that arrives from outside and fails this check must not
    /// be analyzed.
    #[verifier::loop_isolation(false)]
    pub fn is_consistent(&self) -> (r: bool)
        requires
            self.well_formed(),
        ensures
            r == consistent_mem(self@),
    {
        let ghost d = self@;
        let pn = self.container_presence.len();
        let mut k: usize = 0;
        while k < pn
            invariant
                k <= pn,
                pn == d.presence.len(),
                forall|x: int, l: int| 0 <= x < k && 0 <= l < d.presence[x].1.len()
                    ==> find_container(d.containers, #[trigger] d.presence[x].1[l]) >= 0,
                forall|x: int| 0 <= x < k ==> #[trigger] ts_in_global(d, d.presence[x].0),
            decreases pn - k,
        {
            let entry = self.presence_at(k);
            let m = entry.1.len();
            let mut l: usize = 0;
            while l < m
                invariant
                    l <= m,
                    m == d.presence[k as int].1.len(),
                    m == entry.1@.len(),
                    forall|y: int| 0 <= y < l ==> find_container(
                        d.containers,
                        #[trigger] d.presence[k as int].1[y],
                    ) >= 0,
                decreases m - l,
            {
                proof {
                    assert((entry.1@[l as int])@ == d.presence[k as int].1[l as int]);
                }
                if self.histogram_for(&entry.1[l]).is_none() {
                    proof {
                        assert(find_container(d.containers, d.presence[k as int].1[l as int])
                            == -1);
                    }
                    return false;
                }
                l = l + 1;
            }
            let gn = self.global.len();
            let mut i: usize = 0;
            let mut found = false;
            while i < gn
                invariant
                    i <= gn,
                    gn == d.global.len(),
                    found ==> ts_in_global(d, d.presence[k as int].0),
                    !found ==> forall|y: int| 0 <= y < i ==> (#[trigger] d.global[y]).timestamp
                        != d.presence[k as int].0,
                decreases gn - i,
            {
                if self.global[i].timestamp == entry.0 {
                    found = true;
                }
                i = i + 1;
            }
            if !found {
                proof {
                    assert(!ts_in_global(d, d.presence[k as int].0));
                }
                return false;
            }
            k = k + 1;
        }
        let gn = self.global.len();
        let mut i: usize = 0;
        while i < gn
            invariant
                i <= gn,
                gn == d.global.len(),
                forall|x: int| 0 <= x < i ==> find_presence(
                    d.presence,
                    (#[trigger] d.global[x]).timestamp,
                ) >= 0,
            decreases gn - i,
        {
            if self.presence_for(self.global[i].timestamp).is_none() {
                return false;
            }
            i = i + 1;
        }
        true
    }
}

/// The first-match index is in range, matches, and nothing before it
/// matches; -1 means nothing matches at all.
pub proof fn lemma_find_container_props(
    cs: Seq<(ContainerIdView, HistogramView)>,
    id: ContainerIdView,
)
    ensures
        -1 <= find_container(cs, id) < cs.len(),
        find_container(cs, id) >= 0 ==> cs[find_container(cs, id)].0 == id && (forall|k: int|
            0 <= k < find_container(cs, id) ==> (#[trigger] cs[k].0) != id),
        find_container(cs, id) == -1 ==> forall|k: int|
            0 <= k < cs.len() ==> (#[trigger] cs[k].0) != id,
    decreases cs.len(),
{
    if cs.len() > 0 && cs[0].0 != id {
        let rest = cs.drop_first();
        lemma_find_container_props(rest, id);
        let fr = find_container(rest, id);
        if fr >= 0 {
            assert(cs[1 + fr] == rest[fr]);
            assert forall|k: int| 0 <= k < 1 + fr implies (#[trigger] cs[k].0) != id by {
                if k >= 1 {
                    assert(cs[k] == rest[k - 1]);
                }
            }
        } else {
            assert forall|k: int| 0 <= k < cs.len() implies (#[trigger] cs[k].0) != id by {
                if k >= 1 {
                    assert(cs[k] == rest[k - 1]);
                }
            }
        }
    }
}

/// The first-match index for a timestamp is in range, matches, and
/// nothing before it matches; -1 means nothing matches at all.
pub proof fn lemma_find_presence_props(ps: Seq<(u64, Seq<ContainerIdView>)>, ts: u64)
    ensures
        -1 <= find_presence(ps, ts) < ps.len(),
        find_presence(ps, ts) >= 0 ==> ps[find_presence(ps, ts)].0 == ts && (forall|k: int|
            0 <= k < find_presence(ps, ts) ==> (#[trigger] ps[k].0) != ts),
        find_presence(ps, ts) == -1 ==> forall|k: int|
            0 <= k < ps.len() ==> (#[trigger] ps[k].0) != ts,
    decreases ps.len(),
{
    if ps.len() > 0 && ps[0].0 != ts {
        let rest = ps.drop_first();
        lemma_find_presence_props(rest, ts);
        let fr = find_presence(rest, ts);
        if fr >= 0 {
            assert(ps[1 + fr] == rest[fr]);
            assert forall|k: int| 0 <= k < 1 + fr implies (#[trigger] ps[k].0) != ts by {
                if k >= 1 {
                    assert(ps[k] == rest[k - 1]);
                }
            }
        } else {
            assert forall|k: int| 0 <= k < ps.len() implies (#[trigger] ps[k].0) != ts by {
                if k >= 1 {
                    assert(ps[k] == rest[k - 1]);
                }
            }
        }
    }
}

} // verus!
