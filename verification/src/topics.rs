//! AOSC topics: the dynamic suites a topics manifest declares, and the
//! suite list a sync works through.
//!
//! The manifest itself is JSON fetched over the network; the binary
//! around this crate downloads and decodes it and hands the plain
//! [`Topic`] values in.  Only `name` matters to the sync; the rest is
//! retained and persisted for forward compatibility.

use vstd::prelude::*;
use vstd::string::StringSliceAdditionalSpecFns;

use crate::bytes::{clone_bytes, slice_to_vec_u8};

verus! {

/// One topic of the manifest.
#[derive(Clone, Debug, PartialEq, Eq)]
pub struct Topic {
    /// Topic name; the suite it opens.
    pub name: Vec<u8>,
    /// Topic description.
    pub description: Option<Vec<u8>>,
    /// Date of the launch, epoch seconds.
    pub date: i64,
    /// Date of the last update, epoch seconds.
    pub update_date: i64,
    /// Architectures available in this topic.
    pub arch: Vec<Vec<u8>>,
    /// Packages affected by this topic.
    pub packages: Vec<Vec<u8>>,
    /// Whether the corresponding change is still a draft.
    pub draft: bool,
}

/// The mathematical value of a [`Topic`]: the fields the sync reads.
pub ghost struct TopicModel {
    pub name: Seq<u8>,
    pub draft: bool,
}

impl View for Topic {
    type V = TopicModel;

    open spec fn view(&self) -> TopicModel {
        TopicModel { name: self.name@, draft: self.draft }
    }
}

impl DeepView for Topic {
    type V = TopicModel;

    open spec fn deep_view(&self) -> TopicModel {
        self@
    }
}

/// The suites one sync works through: every topic's name, and always
/// `stable` last; without topic mirroring, `stable` alone.
pub open spec fn spec_suite_list(topics: Seq<TopicModel>, mirror_topics: bool) -> Seq<Seq<u8>> {
    if mirror_topics {
        topics.map_values(|t: TopicModel| t.name) + seq!["stable".spec_bytes()]
    } else {
        seq!["stable".spec_bytes()]
    }
}

/// Expand a topics manifest into the effective suite list.
pub fn effective_suites(topics: &Vec<Topic>, mirror_topics: bool) -> (r: Vec<Vec<u8>>)
    ensures
        r.deep_view() == spec_suite_list(topics.deep_view(), mirror_topics),
{
    let mut r: Vec<Vec<u8>> = Vec::new();
    if mirror_topics {
        let n = topics.len();
        proof {
            assert(r.deep_view() =~= topics.deep_view().map_values(|t: TopicModel| t.name).take(
                0,
            ));
        }
        for i in 0..n
            invariant
                n == topics@.len(),
                r.deep_view() == topics.deep_view().map_values(|t: TopicModel| t.name).take(
                    i as int,
                ),
        {
            let ghost old_dv = r.deep_view();
            r.push(clone_bytes(&topics[i].name));
            proof {
                assert(topics.deep_view()[i as int] == topics@[i as int]@);
                assert(r.deep_view() =~~= old_dv.push(topics@[i as int]@.name));
                assert(topics.deep_view().map_values(|t: TopicModel| t.name).take(i + 1)
                    =~= topics.deep_view().map_values(|t: TopicModel| t.name).take(i as int).push(
                    topics.deep_view()[i as int].name,
                ));
            }
        }
        proof {
            assert(topics.deep_view().map_values(|t: TopicModel| t.name).take(n as int)
                =~= topics.deep_view().map_values(|t: TopicModel| t.name));
        }
    }
    r.push(slice_to_vec_u8("stable".as_bytes()));
    proof {
        assert(r.deep_view() =~~= spec_suite_list(topics.deep_view(), mirror_topics));
    }
    r
}

} // verus!
