//! Simple, Prometheus-style metrics.
pub mod http;

use crate::assoc::{position, put};
use crate::decimal::{decimal, push_decimal};
use crate::raft::NodeID;
use crate::text::str_eq;
use vstd::prelude::*;
use vstd::string::StringExecFns;

verus! {

/// [Type of metric](https://prometheus.io/docs/concepts/metric_types/).
#[derive(Debug, Clone, Copy)]
pub enum Type {
    Gauge,
}

impl Type {
    /// The type as text.
    pub fn to_string(&self) -> (s: String)
        ensures
            s@ == "gauge"@,
    {
        "gauge".to_owned()
    }
}

/// The node that a metric is of.
#[derive(Debug)]
pub struct InflightProxyRequestsLabels {
    pub node: NodeID,
}

/// How many proxied requests are in flight, per node. A [Gauge
/// metric](https://prometheus.io/docs/concepts/metric_types/#gauge).
#[derive(Debug)]
pub struct InflightProxyRequests {
    inner: Vec<(NodeID, usize)>,
}

/// What [`InflightProxyRequests`] are, mathematically.
pub type Samples = Seq<(Seq<char>, usize)>;

impl View for InflightProxyRequests {
    type V = Samples;

    closed spec fn view(&self) -> Samples {
        Seq::new(self.inner@.len(), |i: int| (self.inner@[i].0@, self.inner@[i].1))
    }
}

/// The largest whole number up to which a double holds every whole number. Prometheus knows
/// no other numbers.
pub const MAX_EXACT: u64 = 0x20_0000_0000_0000;

/// No sample is beyond what Prometheus can hold exactly.
pub open spec fn exact(samples: Samples) -> bool {
    forall|i: int| 0 <= i < samples.len() ==> (#[trigger] samples[i]).1 <= MAX_EXACT
}

/// Samples in the [wire format](https://prometheus.io/docs/instrumenting/exposition_formats/),
/// from the `i`-th on.
pub open spec fn samples_text(samples: Samples, i: int) -> Seq<char>
    decreases samples.len() - i,
{
    if i < 0 || i >= samples.len() {
        seq![]
    } else {
        "inflight_proxy_requests{node=\""@ + samples[i].0 + "\"} "@ + decimal(samples[i].1 as nat)
            + "\n"@ + samples_text(samples, i + 1)
    }
}

impl InflightProxyRequests {
    /// No samples yet.
    pub fn new() -> (m: InflightProxyRequests)
        ensures
            m@ == Samples::empty(),
    {
        let m = InflightProxyRequests { inner: Vec::new() };
        assert(m@ =~= Samples::empty());
        m
    }

    /// The name of the metric.
    pub fn name(&self) -> (s: &'static str)
        ensures
            s@ == "inflight_proxy_requests"@,
    {
        "inflight_proxy_requests"
    }

    fn find(&self, node: &str) -> (r: Option<usize>)
        ensures
            match r {
                Some(i) => position(self@, node@, 0) == Some(i as int) && i < self@.len(),
                None => position(self@, node@, 0) is None,
            },
    {
        let mut i: usize = 0;
        while i < self.inner.len()
            invariant
                i <= self.inner@.len(),
                position(self@, node@, 0) == position(self@, node@, i as int),
            decreases self.inner@.len() - i,
        {
            if str_eq(self.inner[i].0.as_str(), node) {
                return Some(i);
            }
            i = i + 1;
        }
        None
    }

    /// Sets the number for a node.
    pub fn set(&mut self, val: usize, labels: InflightProxyRequestsLabels)
        ensures
            final(self)@ == put(old(self)@, labels.node@, val),
    {
        let ghost before = self@;
        let node: NodeID = labels.node;
        match self.find(node.as_str()) {
            Some(i) => {
                self.inner[i] = (node, val);
            },
            None => {
                self.inner.push((node, val));
            },
        }
        assert(self@ =~= put(before, node@, val));
    }

    /// Serialize self into [acceptable wire
    /// format](https://prometheus.io/docs/instrumenting/exposition_formats/).
    pub fn to_prometheus(&self) -> (s: String)
        requires
            exact(self@),
        ensures
            s@ == "# TYPE inflight_proxy_requests gauge\n"@ + samples_text(self@, 0),
    {
        let mut s: String = "# TYPE ".to_owned();
        s.append(self.name());
        s.append(" ");
        s.append(Type::Gauge.to_string().as_str());
        s.append("\n");
        proof {
            reveal_strlit("# TYPE ");
            reveal_strlit("inflight_proxy_requests");
            reveal_strlit(" ");
            reveal_strlit("gauge");
            reveal_strlit("\n");
            reveal_strlit("# TYPE inflight_proxy_requests gauge\n");
            assert(s@ =~= "# TYPE inflight_proxy_requests gauge\n"@);
        }
        let ghost start = s@;
        let mut i: usize = 0;
        while i < self.inner.len()
            invariant
                i <= self.inner@.len(),
                s@ + samples_text(self@, i as int) == start + samples_text(self@, 0),
            decreases self.inner@.len() - i,
        {
            let ghost before = s@;
            s.append("inflight_proxy_requests{node=\"");
            s.append(self.inner[i].0.as_str());
            s.append("\"} ");
            push_decimal(&mut s, self.inner[i].1 as u64);
            s.append("\n");
            assert(s@ + samples_text(self@, i + 1) =~= before + samples_text(self@, i as int));
            i = i + 1;
        }
        assert(s@ =~= start + samples_text(self@, 0));
        s
    }
}

/// Setting a number for a node changes no other node's.
pub proof fn samples_are_per_node(samples: Samples, node: Seq<char>, val: usize, other: Seq<char>)
    ensures
        crate::assoc::lookup(put(samples, node, val), other) == (if other == node {
            Some(val)
        } else {
            crate::assoc::lookup(samples, other)
        }),
{
    crate::assoc::lookup_after_put(samples, node, val, other);
}

/// Every sample has a line of its own, in order: the metric, the node, the number.
pub proof fn samples_have_lines(samples: Samples, node: Seq<char>, val: usize)
    ensures
        samples_text(Samples::empty(), 0) == Seq::<char>::empty(),
        samples_text(samples.push((node, val)), 0) == samples_text(samples, 0)
            + "inflight_proxy_requests{node=\""@ + node + seq!['"', '}', ' '] + decimal(val as nat)
            + seq!['\n'],
{
    reveal_strlit("\"} ");
    reveal_strlit("\n");
    assert("\"} "@ =~= seq!['"', '}', ' ']);
    assert("\n"@ =~= seq!['\n']);
    lemma_samples_push(samples, node, val, 0);
}

proof fn lemma_samples_push(samples: Samples, node: Seq<char>, val: usize, i: int)
    requires
        0 <= i <= samples.len(),
        "\"} "@ == seq!['"', '}', ' '],
        "\n"@ == seq!['\n'],
    ensures
        samples_text(samples.push((node, val)), i) == samples_text(samples, i)
            + "inflight_proxy_requests{node=\""@ + node + seq!['"', '}', ' '] + decimal(val as nat)
            + seq!['\n'],
    decreases samples.len() - i,
{
    let all = samples.push((node, val));
    let line = "inflight_proxy_requests{node=\""@ + node + seq!['"', '}', ' '] + decimal(val as nat)
        + seq!['\n'];
    if i < samples.len() {
        lemma_samples_push(samples, node, val, i + 1);
        assert(all[i] == samples[i]);
        assert(samples_text(all, i) =~= samples_text(samples, i) + line);
    } else {
        assert(samples_text(all, i + 1) =~= seq![]);
        assert(samples_text(all, i) =~= line);
        assert(samples_text(samples, i) =~= seq![]);
    }
    assert(samples_text(samples, i) + line =~= samples_text(samples, i)
        + "inflight_proxy_requests{node=\""@ + node + seq!['"', '}', ' '] + decimal(val as nat)
        + seq!['\n']);
}

} // verus!
