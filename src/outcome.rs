use vstd::multiset::Multiset;
use vstd::prelude::*;

verus! {

/// What one connection attempt to one port showed.
#[derive(PartialEq, Eq, Structural, Clone, Copy, Debug)]
pub enum ScanOutcome {
    /// The TCP handshake completed.
    Open,
    /// The handshake did not complete: refused, timed out or otherwise failed.
    NonOpen,
}

impl ScanOutcome {
    /// The outcome of an attempt that did (`true`) or did not connect.
    pub fn from_connected(connected: bool) -> (r: ScanOutcome)
        ensures
            r == (if connected { ScanOutcome::Open } else { ScanOutcome::NonOpen }),
    {
        if connected {
            ScanOutcome::Open
        } else {
            ScanOutcome::NonOpen
        }
    }
}

/// Results from a scan.
pub struct ScanResult {
    /// Ports that complete the TCP handshake.
    pub open_ports: Vec<u16>,
    /// Ports that do not complete the handshake. A connect scan cannot tell a
    /// port that never answers (filtered) from one that resets (closed).
    pub non_open_ports: Vec<u16>,
}

/// The ports whose outcome is `Open`, in input order; `outcomes[i]` belongs
/// to `ports[i]`.
pub open spec fn open_of(ports: Seq<u16>, outcomes: Seq<ScanOutcome>) -> Seq<u16>
    decreases ports.len(),
{
    if ports.len() == 0 || outcomes.len() == 0 {
        Seq::empty()
    } else {
        let rest = open_of(ports.drop_last(), outcomes.drop_last());
        if outcomes.last() == ScanOutcome::Open {
            rest.push(ports.last())
        } else {
            rest
        }
    }
}

/// The ports whose outcome is `NonOpen`, in input order.
pub open spec fn non_open_of(ports: Seq<u16>, outcomes: Seq<ScanOutcome>) -> Seq<u16>
    decreases ports.len(),
{
    if ports.len() == 0 || outcomes.len() == 0 {
        Seq::empty()
    } else {
        let rest = non_open_of(ports.drop_last(), outcomes.drop_last());
        if outcomes.last() == ScanOutcome::NonOpen {
            rest.push(ports.last())
        } else {
            rest
        }
    }
}

/// Splits `ports` by their outcomes (`outcomes[i]` is the outcome of
/// `ports[i]`); each list keeps the input order.
pub fn aggregate(ports: &Vec<u16>, outcomes: &Vec<ScanOutcome>) -> (r: ScanResult)
    requires
        ports.len() == outcomes.len(),
    ensures
        r.open_ports@ == open_of(ports@, outcomes@),
        r.non_open_ports@ == non_open_of(ports@, outcomes@),
{
    let mut open_ports: Vec<u16> = Vec::new();
    let mut non_open_ports: Vec<u16> = Vec::new();
    let mut i: usize = 0;
    while i < ports.len()
        invariant
            ports.len() == outcomes.len(),
            i <= ports.len(),
            open_ports@ == open_of(ports@.take(i as int), outcomes@.take(i as int)),
            non_open_ports@ == non_open_of(ports@.take(i as int), outcomes@.take(i as int)),
        decreases ports.len() - i,
    {
        assert(ports@.take(i + 1).drop_last() =~= ports@.take(i as int));
        assert(outcomes@.take(i + 1).drop_last() =~= outcomes@.take(i as int));
        match outcomes[i] {
            ScanOutcome::Open => open_ports.push(ports[i]),
            ScanOutcome::NonOpen => non_open_ports.push(ports[i]),
        }
        i = i + 1;
    }
    assert(ports@.take(i as int) =~= ports@);
    assert(outcomes@.take(i as int) =~= outcomes@);
    ScanResult { open_ports, non_open_ports }
}

/// Every input port lands in exactly one of the two lists: together they hold
/// the input ports, each as often as the input does.
pub proof fn lemma_partition_counts(ports: Seq<u16>, outcomes: Seq<ScanOutcome>)
    requires
        ports.len() == outcomes.len(),
    ensures
        (open_of(ports, outcomes) + non_open_of(ports, outcomes)).to_multiset()
            == ports.to_multiset(),
    decreases ports.len(),
{
    broadcast use vstd::seq_lib::group_to_multiset_ensures;

    let o = open_of(ports, outcomes);
    let n = non_open_of(ports, outcomes);
    vstd::seq_lib::lemma_multiset_commutative(o, n);
    if ports.len() == 0 {
        assert(o =~= Seq::empty());
        assert(n =~= Seq::empty());
        assert(o.to_multiset() =~= Multiset::empty());
        assert(n.to_multiset() =~= Multiset::empty());
        assert(ports.to_multiset() =~= Multiset::empty());
    } else {
        let ps = ports.drop_last();
        let os = outcomes.drop_last();
        lemma_partition_counts(ps, os);
        let ro = open_of(ps, os);
        let rn = non_open_of(ps, os);
        vstd::seq_lib::lemma_multiset_commutative(ro, rn);
        assert(ps.push(ports.last()) =~= ports);
        vstd::seq_lib::to_multiset_build(ps, ports.last());
        if outcomes.last() == ScanOutcome::Open {
            vstd::seq_lib::to_multiset_build(ro, ports.last());
            assert(o.to_multiset().add(n.to_multiset()) =~= ps.to_multiset().insert(ports.last()));
        } else {
            vstd::seq_lib::to_multiset_build(rn, ports.last());
            assert(o.to_multiset().add(n.to_multiset()) =~= ps.to_multiset().insert(ports.last()));
        }
    }
}

/// A port is reported open or non-open exactly when it is an input port, and
/// (with distinct input ports) never both.
pub proof fn lemma_partition(ports: Seq<u16>, outcomes: Seq<ScanOutcome>)
    requires
        ports.len() == outcomes.len(),
    ensures
        forall|p: u16|
            #![trigger ports.contains(p)]
            open_of(ports, outcomes).contains(p) || non_open_of(ports, outcomes).contains(p)
                <==> ports.contains(p),
        ports.no_duplicates() ==> forall|p: u16|
            #![trigger open_of(ports, outcomes).contains(p)]
            !(open_of(ports, outcomes).contains(p) && non_open_of(ports, outcomes).contains(p)),
{
    broadcast use vstd::seq_lib::group_to_multiset_ensures;

    let o = open_of(ports, outcomes);
    let n = non_open_of(ports, outcomes);
    lemma_partition_counts(ports, outcomes);
    vstd::seq_lib::lemma_multiset_commutative(o, n);
    assert forall|p: u16| #![trigger ports.contains(p)]
        o.contains(p) || n.contains(p) <==> ports.contains(p) by {
        assert(ports.to_multiset().count(p) == o.to_multiset().count(p) + n.to_multiset().count(p));
    }
    if ports.no_duplicates() {
        lemma_no_duplication(ports, outcomes);
        assert forall|p: u16| #![trigger o.contains(p)] !(o.contains(p) && n.contains(p)) by {
            if o.contains(p) && n.contains(p) {
                let i = choose|i: int| 0 <= i < o.len() && o[i] == p;
                let j = choose|j: int| 0 <= j < n.len() && n[j] == p;
                assert((o + n)[i] == (o + n)[o.len() + j]);
            }
        }
    }
}

/// With distinct input ports, no port appears twice across the two lists.
pub proof fn lemma_no_duplication(ports: Seq<u16>, outcomes: Seq<ScanOutcome>)
    requires
        ports.len() == outcomes.len(),
        ports.no_duplicates(),
    ensures
        (open_of(ports, outcomes) + non_open_of(ports, outcomes)).no_duplicates(),
{
    let all = open_of(ports, outcomes) + non_open_of(ports, outcomes);
    lemma_partition_counts(ports, outcomes);
    ports.lemma_multiset_has_no_duplicates();
    all.lemma_multiset_has_no_duplicates_conv();
}

/// Where a port lands depends on its own outcome alone: a port whose attempt
/// connects is listed open and not non-open, and one whose attempt fails is
/// listed non-open and not open (input ports distinct).
pub proof fn lemma_classification(ports: Seq<u16>, outcomes: Seq<ScanOutcome>, i: int)
    requires
        ports.len() == outcomes.len(),
        ports.no_duplicates(),
        0 <= i < ports.len(),
    ensures
        outcomes[i] == ScanOutcome::Open ==> open_of(ports, outcomes).contains(ports[i])
            && !non_open_of(ports, outcomes).contains(ports[i]),
        outcomes[i] == ScanOutcome::NonOpen ==> non_open_of(ports, outcomes).contains(ports[i])
            && !open_of(ports, outcomes).contains(ports[i]),
    decreases ports.len(),
{
    lemma_partition(ports, outcomes);
    assert(ports.contains(ports[i]));
    let ps = ports.drop_last();
    let os = outcomes.drop_last();
    if i == ports.len() - 1 {
        if outcomes[i] == ScanOutcome::Open {
            let o = open_of(ports, outcomes);
            assert(o[o.len() - 1] == ports[i]);
            assert(o.contains(ports[i]));
        } else {
            let n = non_open_of(ports, outcomes);
            assert(n[n.len() - 1] == ports[i]);
            assert(n.contains(ports[i]));
        }
    } else {
        lemma_classification(ps, os, i);
        assert(ps[i] == ports[i]);
        assert(os[i] == outcomes[i]);
        if outcomes[i] == ScanOutcome::Open {
            assert(open_of(ps, os).contains(ports[i]));
            let k = choose|k: int| 0 <= k < open_of(ps, os).len() && open_of(ps, os)[k] == ports[i];
            assert(open_of(ports, outcomes)[k] == ports[i]);
            assert(open_of(ports, outcomes).contains(ports[i]));
        } else {
            assert(non_open_of(ps, os).contains(ports[i]));
            let k = choose|k: int|
                0 <= k < non_open_of(ps, os).len() && non_open_of(ps, os)[k] == ports[i];
            assert(non_open_of(ports, outcomes)[k] == ports[i]);
            assert(non_open_of(ports, outcomes).contains(ports[i]));
        }
    }
}

} // verus!
