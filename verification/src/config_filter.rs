//! Choosing a stream configuration among those an audio device offers.

use vstd::prelude::*;

use crate::samples::SampleFormat;

verus! {

/// A stream configuration that a device offers, as the choice reads it: its position in
/// the device's list, its channel count and its sample format.
#[derive(Clone, Copy, Debug, PartialEq, Eq, Structural)]
pub struct ConfigRange {
    pub id: usize,
    pub channels: u16,
    pub sample_format: SampleFormat,
}

/// A test that configurations are filtered by.
enum Criterion {
    Format(SampleFormat),
    ChannelsEq(u16),
    ChannelsAbove(u16),
    ChannelsBelow(u16),
}

/// The configuration passes the test.
spec fn passes(c: Criterion) -> spec_fn(ConfigRange) -> bool {
    |r: ConfigRange|
        match c {
            Criterion::Format(f) => r.sample_format == f,
            Criterion::ChannelsEq(n) => r.channels == n,
            Criterion::ChannelsAbove(n) => r.channels > n,
            Criterion::ChannelsBelow(n) => r.channels < n,
        }
}

/// The configurations of `v` that pass `c`, in order.
fn keep(v: Vec<ConfigRange>, c: Criterion) -> (out: Vec<ConfigRange>)
    ensures
        out@ == v@.filter(passes(c)),
{
    let mut out: Vec<ConfigRange> = Vec::new();
    let mut i: usize = 0;
    while i < v.len()
        invariant
            i <= v@.len(),
            out@ == v@.subrange(0, i as int).filter(passes(c)),
        decreases v@.len() - i,
    {
        let r = v[i];
        let ok = match c {
            Criterion::Format(f) => r.sample_format == f,
            Criterion::ChannelsEq(n) => r.channels == n,
            Criterion::ChannelsAbove(n) => r.channels > n,
            Criterion::ChannelsBelow(n) => r.channels < n,
        };
        proof {
            assert(v@.subrange(0, i + 1) =~= v@.subrange(0, i as int).push(r));
            v@.subrange(0, i as int).lemma_filter_push(r, passes(c));
        }
        if ok {
            out.push(r);
        }
        i = i + 1;
    }
    assert(v@.subrange(0, i as int) =~= v@);
    out
}

/// What `Iterator::reduce` gives with "keep the first unless the second has fewer
/// channels": a configuration with the fewest channels, the last of them.
pub open spec fn fewest_channels(s: Seq<ConfigRange>) -> ConfigRange
    recommends
        s.len() > 0,
    decreases s.len(),
{
    if s.len() <= 1 {
        s[0]
    } else {
        let acc = fewest_channels(s.drop_last());
        if acc.channels < s.last().channels {
            acc
        } else {
            s.last()
        }
    }
}

/// The configurations of a device, narrowed down step by step.
#[derive(Debug, Clone)]
pub struct ConfigFilter {
    config: Vec<ConfigRange>,
}

impl View for ConfigFilter {
    type V = Seq<ConfigRange>;

    closed spec fn view(&self) -> Seq<ConfigRange> {
        self.config@
    }
}

impl ConfigFilter {
    /// The configurations a device offers for input.
    pub fn from_supported_input_config(config: Vec<ConfigRange>) -> (f: ConfigFilter)
        ensures
            f@ == config@,
    {
        ConfigFilter { config }
    }

    /// The configurations a device offers for output.
    pub fn from_supported_output_config(config: Vec<ConfigRange>) -> (f: ConfigFilter)
        ensures
            f@ == config@,
    {
        ConfigFilter { config }
    }

    /// Filter for only Configs that use the `sample_format`.
    pub fn filter_sample_format(self, sample_format: SampleFormat) -> (f: ConfigFilter)
        ensures
            f@ == self@.filter(|r: ConfigRange| r.sample_format == sample_format),
    {
        let c = Criterion::Format(sample_format);
        assert(passes(c) =~= (|r: ConfigRange| r.sample_format == sample_format));
        ConfigFilter { config: keep(self.config, c) }
    }

    /// Filter for only Configs with a channel count equals to `channel_count`.
    pub fn filter_channel_count_eq(self, channel_count: u16) -> (f: ConfigFilter)
        ensures
            f@ == self@.filter(|r: ConfigRange| r.channels == channel_count),
    {
        let c = Criterion::ChannelsEq(channel_count);
        assert(passes(c) =~= (|r: ConfigRange| r.channels == channel_count));
        ConfigFilter { config: keep(self.config, c) }
    }

    /// Keeps the configurations with more than `channel_count` channels.
    pub fn filter_channel_count_ge(self, channel_count: u16) -> (f: ConfigFilter)
        ensures
            f@ == self@.filter(|r: ConfigRange| r.channels > channel_count),
    {
        let c = Criterion::ChannelsAbove(channel_count);
        assert(passes(c) =~= (|r: ConfigRange| r.channels > channel_count));
        ConfigFilter { config: keep(self.config, c) }
    }

    /// Keeps the configurations with fewer than `channel_count` channels.
    pub fn filter_channel_count_le(self, channel_count: u16) -> (f: ConfigFilter)
        ensures
            f@ == self@.filter(|r: ConfigRange| r.channels < channel_count),
    {
        let c = Criterion::ChannelsBelow(channel_count);
        assert(passes(c) =~= (|r: ConfigRange| r.channels < channel_count));
        ConfigFilter { config: keep(self.config, c) }
    }

    /// The configuration with the fewest channels (the last such one); `None` where none
    /// is left.
    pub fn get_config_smallest_channel_count(self) -> (r: Option<ConfigRange>)
        ensures
            r == (if self@.len() == 0 {
                None
            } else {
                Some(fewest_channels(self@))
            }),
    {
        let v = self.config;
        if v.len() == 0 {
            return None;
        }
        let mut acc = v[0];
        let mut i: usize = 1;
        while i < v.len()
            invariant
                1 <= i <= v@.len(),
                acc == fewest_channels(v@.subrange(0, i as int)),
            decreases v@.len() - i,
        {
            let x = v[i];
            proof {
                assert(v@.subrange(0, i + 1).drop_last() =~= v@.subrange(0, i as int));
            }
            if !(acc.channels < x.channels) {
                acc = x;
            }
            i = i + 1;
        }
        assert(v@.subrange(0, i as int) =~= v@);
        Some(acc)
    }

    /// Takes the last configuration out.
    pub fn pop(&mut self) -> (r: Option<ConfigRange>)
        ensures
            old(self)@.len() == 0 ==> r is None && final(self)@ == old(self)@,
            old(self)@.len() > 0 ==> r == Some(old(self)@.last()) && final(self)@ == old(
                self,
            )@.drop_last(),
    {
        self.config.pop()
    }

    /// The configurations left.
    pub fn inner(self) -> (v: Vec<ConfigRange>)
        ensures
            v@ == self@,
    {
        self.config
    }
}

/// The `f32` configurations with more than one channel, in order.
pub open spec fn stream_candidates(configs: Seq<ConfigRange>) -> Seq<ConfigRange> {
    configs.filter(|r: ConfigRange| r.sample_format == SampleFormat::F32).filter(
        |r: ConfigRange| r.channels > 1,
    )
}

/// The stream candidates are the `f32` configurations with more than one channel; where
/// there are any, the chosen one is among them and none has fewer channels.
pub proof fn lemma_stream_choice(configs: Seq<ConfigRange>)
    ensures
        stream_candidates(configs).len() == 0 <==> forall|i: int|
            0 <= i < configs.len() ==> !(#[trigger] configs[i].sample_format == SampleFormat::F32
                && configs[i].channels > 1),
        stream_candidates(configs).len() > 0 ==> {
            let c = fewest_channels(stream_candidates(configs));
            &&& configs.contains(c)
            &&& c.sample_format == SampleFormat::F32
            &&& c.channels > 1
            &&& forall|i: int|
                0 <= i < configs.len() && configs[i].sample_format == SampleFormat::F32
                    && configs[i].channels > 1 ==> c.channels <= #[trigger] configs[i].channels
        },
{
    broadcast use vstd::seq_lib::group_filter_ensures;

    let p1 = |r: ConfigRange| r.sample_format == SampleFormat::F32;
    let p2 = |r: ConfigRange| r.channels > 1;
    let f = configs.filter(p1);
    let g = f.filter(p2);
    assert(g == stream_candidates(configs));
    assert forall|i: int|
        0 <= i < configs.len() && configs[i].sample_format == SampleFormat::F32
            && configs[i].channels > 1 implies g.contains(#[trigger] configs[i]) by {
        configs.lemma_filter_contains(p1, i);
        let j = choose|j: int| 0 <= j < f.len() && f[j] == configs[i];
        f.lemma_filter_contains(p2, j);
    }
    if g.len() > 0 {
        lemma_fewest_channels(g);
        let c = fewest_channels(g);
        let k = choose|k: int| 0 <= k < g.len() && g[k] == c;
        f.lemma_filter_pred(p2, k);
        assert(f.contains(c)) by {
            f.lemma_filter_contains_rev(p2, c);
        }
        let j = choose|j: int| 0 <= j < f.len() && f[j] == c;
        configs.lemma_filter_pred(p1, j);
        configs.lemma_filter_contains_rev(p1, c);
        assert forall|i: int|
            0 <= i < configs.len() && configs[i].sample_format == SampleFormat::F32
                && configs[i].channels > 1 implies c.channels <= #[trigger] configs[i].channels by {
            let m = choose|m: int| 0 <= m < g.len() && g[m] == configs[i];
            assert(c.channels <= g[m].channels);
        }
    } else {
        assert forall|i: int| 0 <= i < configs.len() implies !(
        #[trigger] configs[i].sample_format == SampleFormat::F32 && configs[i].channels > 1) by {
            if configs[i].sample_format == SampleFormat::F32 && configs[i].channels > 1 {
                assert(g.contains(configs[i]));
            }
        }
    }
    if forall|i: int|
        0 <= i < configs.len() ==> !(#[trigger] configs[i].sample_format == SampleFormat::F32
            && configs[i].channels > 1) {
        if g.len() > 0 {
            f.lemma_filter_pred(p2, 0);
            assert(f.contains(g[0])) by {
                f.lemma_filter_contains_rev(p2, g[0]);
            }
            let j2 = choose|j2: int| 0 <= j2 < f.len() && f[j2] == g[0];
            configs.lemma_filter_pred(p1, j2);
            let m = choose|m: int| 0 <= m < configs.len() && configs[m] == g[0];
            assert(configs[m].sample_format == SampleFormat::F32 && configs[m].channels > 1);
        }
    }
}

/// The configuration a stream is opened with: among the `f32` configurations with more
/// than one channel, one with the fewest channels (the last such one); `None` where there
/// is none.
pub fn choose_stream_config(configs: Vec<ConfigRange>) -> (r: Option<ConfigRange>)
    ensures
        r == (if stream_candidates(configs@).len() == 0 {
            None
        } else {
            Some(fewest_channels(stream_candidates(configs@)))
        }),
        r is None <==> forall|i: int|
            0 <= i < configs@.len() ==> !(#[trigger] configs@[i].sample_format == SampleFormat::F32
                && configs@[i].channels > 1),
        r matches Some(c) ==> {
            &&& configs@.contains(c)
            &&& c.sample_format == SampleFormat::F32
            &&& c.channels > 1
            &&& forall|i: int|
                0 <= i < configs@.len() && configs@[i].sample_format == SampleFormat::F32
                    && configs@[i].channels > 1 ==> c.channels <= #[trigger] configs@[i].channels
        },
{
    proof {
        lemma_stream_choice(configs@);
    }
    let f = ConfigFilter::from_supported_input_config(configs).filter_sample_format(
        SampleFormat::F32,
    );
    let g = f.filter_channel_count_ge(1);
    assert(g@ == stream_candidates(configs@));
    g.get_config_smallest_channel_count()
}

/// The configuration chosen by [`ConfigFilter::get_config_smallest_channel_count`] is one
/// of those left, and none of them has fewer channels.
pub proof fn lemma_fewest_channels(s: Seq<ConfigRange>)
    requires
        s.len() > 0,
    ensures
        s.contains(fewest_channels(s)),
        forall|i: int| 0 <= i < s.len() ==> fewest_channels(s).channels <= #[trigger] s[i].channels,
    decreases s.len(),
{
    if s.len() > 1 {
        let p = s.drop_last();
        lemma_fewest_channels(p);
        let k = choose|k: int| 0 <= k < p.len() && p[k] == fewest_channels(p);
        assert(s[k] == p[k]);
        assert forall|i: int| 0 <= i < s.len() implies fewest_channels(s).channels
            <= #[trigger] s[i].channels by {
            if i < s.len() - 1 {
                assert(s[i] == p[i]);
            }
        }
        assert(s[s.len() - 1] == s.last());
    } else {
        assert(s[0] == fewest_channels(s));
    }
}

} // verus!
