//! Statistics over the value sites of the records that a scan has passed:
//! an accumulator that the caller owns and hands to each step of the scan.

use super::types::{InstrProfRecord, InstrProfValueData, InstrProfValueSiteRecord, ValueKind};
use super::value_sites::sat_add;
use vstd::prelude::*;

verus! {

/// The mathematical value of a `ValueSiteStats`.
pub struct SiteStatsModel {
    /// The number of value sites seen.
    pub total_num_value_sites: u64,
    /// The number of value sites seen that have samples.
    pub total_num_value_sites_with_value_profile: u64,
    /// The number of samples seen.
    pub total_num_values: u64,
    /// At position `k`, the number of value sites seen with `k + 1` samples.
    pub value_sites_histogram: Seq<u64>,
}

/// A histogram that is long enough for a site with `n` samples: zeros are
/// added to a shorter one.
pub open spec fn histogram_for(histogram: Seq<u64>, n: nat) -> Seq<u64> {
    if histogram.len() >= n {
        histogram
    } else {
        histogram + Seq::new((n - histogram.len()) as nat, |i: int| 0u64)
    }
}

impl SiteStatsModel {
    /// The statistics of no site.
    pub open spec fn empty() -> SiteStatsModel {
        SiteStatsModel {
            total_num_value_sites: 0,
            total_num_value_sites_with_value_profile: 0,
            total_num_values: 0,
            value_sites_histogram: Seq::empty(),
        }
    }

    /// The statistics after one more site. Each count is held at the largest
    /// value of 64 bits.
    pub open spec fn add_site(self, site: Seq<InstrProfValueData>) -> SiteStatsModel {
        if site.len() == 0 {
            SiteStatsModel {
                total_num_value_sites: sat_add(self.total_num_value_sites, 1),
                ..self
            }
        } else {
            let long_enough = histogram_for(self.value_sites_histogram, site.len());
            SiteStatsModel {
                total_num_value_sites: sat_add(self.total_num_value_sites, 1),
                total_num_value_sites_with_value_profile: sat_add(
                    self.total_num_value_sites_with_value_profile,
                    1,
                ),
                total_num_values: sat_add(self.total_num_values, capped_len(site.len())),
                value_sites_histogram: long_enough.update(
                    site.len() - 1,
                    sat_add(long_enough[site.len() - 1], 1),
                ),
            }
        }
    }

    /// The statistics after a sequence of sites.
    pub open spec fn add_sites(self, sites: Seq<Seq<InstrProfValueData>>) -> SiteStatsModel
        decreases sites.len(),
    {
        if sites.len() == 0 {
            self
        } else {
            self.add_sites(sites.drop_last()).add_site(sites.last())
        }
    }
}

/// A length held at the largest value of 64 bits.
pub open spec fn capped_len(n: nat) -> u64 {
    if n > u64::MAX {
        u64::MAX
    } else {
        n as u64
    }
}

/// Statistics over the value sites of one kind.
#[derive(Debug, Clone, PartialEq, Eq)]
pub struct ValueSiteStats {
    pub total_num_value_sites: u64,
    pub total_num_value_sites_with_value_profile: u64,
    pub total_num_values: u64,
    pub value_sites_histogram: Vec<u64>,
}

impl View for ValueSiteStats {
    type V = SiteStatsModel;

    open spec fn view(&self) -> SiteStatsModel {
        SiteStatsModel {
            total_num_value_sites: self.total_num_value_sites,
            total_num_value_sites_with_value_profile: self.total_num_value_sites_with_value_profile,
            total_num_values: self.total_num_values,
            value_sites_histogram: self.value_sites_histogram@,
        }
    }
}

impl Default for ValueSiteStats {
    fn default() -> (s: Self)
        ensures
            s@ == SiteStatsModel::empty(),
    {
        ValueSiteStats {
            total_num_value_sites: 0,
            total_num_value_sites_with_value_profile: 0,
            total_num_values: 0,
            value_sites_histogram: Vec::new(),
        }
    }
}

impl ValueSiteStats {
    /// Takes one value site into the statistics.
    pub fn add_site(&mut self, site: &InstrProfValueSiteRecord)
        ensures
            final(self)@ == old(self)@.add_site(site@),
    {
        self.total_num_value_sites = self.total_num_value_sites.saturating_add(1);
        let n: usize = site.len();
        if n > 0 {
            self.total_num_value_sites_with_value_profile =
            self.total_num_value_sites_with_value_profile.saturating_add(1);
            self.total_num_values = self.total_num_values.saturating_add(n as u64);
            let ghost before = self.value_sites_histogram@;
            while self.value_sites_histogram.len() < n
                invariant
                    before.len() <= self.value_sites_histogram@.len(),
                    before.len() < n ==> self.value_sites_histogram@.len() <= n,
                    before.len() >= n ==> self.value_sites_histogram@ == before,
                    self.value_sites_histogram@ == before + Seq::new(
                        (self.value_sites_histogram@.len() - before.len()) as nat,
                        |i: int| 0u64,
                    ),
                    self.total_num_value_sites == old(self)@.add_site(site@).total_num_value_sites,
                    self.total_num_value_sites_with_value_profile == old(self)@.add_site(
                        site@,
                    ).total_num_value_sites_with_value_profile,
                    self.total_num_values == old(self)@.add_site(site@).total_num_values,
                decreases n - self.value_sites_histogram@.len(),
            {
                let ghost held = self.value_sites_histogram@;
                self.value_sites_histogram.push(0);
                proof {
                    assert(self.value_sites_histogram@ =~= before + Seq::new(
                        (held.len() + 1 - before.len()) as nat,
                        |i: int| 0u64,
                    ));
                }
            }
            proof {
                assert(self.value_sites_histogram@ =~= histogram_for(before, n as nat));
            }
            let seen: u64 = self.value_sites_histogram[n - 1];
            self.value_sites_histogram[n - 1] = seen.saturating_add(1);
            proof {
                assert(self@.value_sites_histogram =~= old(self)@.add_site(
                    site@,
                ).value_sites_histogram);
            }
        }
    }

    /// Takes the value sites of one kind of a record into the statistics.
    pub fn traverse_sites(&mut self, record: &InstrProfRecord, kind: ValueKind)
        ensures
            final(self)@ == old(self)@.add_sites(record@.sites(kind)),
    {
        match &record.data {
            Some(d) => {
                let sites: &Vec<InstrProfValueSiteRecord> = match kind {
                    ValueKind::IndirectCallTarget => &d.indirect_callsites,
                    ValueKind::MemOpSize => &d.mem_op_sizes,
                };
                let ghost all = record@.sites(kind);
                let mut i: usize = 0;
                proof {
                    assert(all.take(0) =~= Seq::<Seq<InstrProfValueData>>::empty());
                }
                while i < sites.len()
                    invariant
                        i <= sites@.len(),
                        all.len() == sites@.len(),
                        forall|k: int| 0 <= k < sites@.len() ==> all[k] == (#[trigger] sites@[k])@,
                        self@ == old(self)@.add_sites(all.take(i as int)),
                    decreases sites@.len() - i,
                {
                    proof {
                        assert(all.take(i + 1).drop_last() =~= all.take(i as int));
                        assert(all.take(i + 1).last() == sites@[i as int]@);
                    }
                    self.add_site(&sites[i]);
                    i = i + 1;
                }
                proof {
                    assert(all.take(i as int) =~= all);
                }
            },
            None => {},
        }
    }
}

} // verus!
