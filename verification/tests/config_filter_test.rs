use vchat::config_filter::{choose_stream_config, ConfigFilter, ConfigRange};
use vchat::samples::SampleFormat;

fn range(id: usize, channels: u16, sample_format: SampleFormat) -> ConfigRange {
    ConfigRange { id, channels, sample_format }
}

fn sample() -> Vec<ConfigRange> {
    vec![
        range(0, 2, SampleFormat::F32),
        range(1, 1, SampleFormat::F32),
        range(2, 1, SampleFormat::I16),
        range(3, 6, SampleFormat::F32),
        range(4, 2, SampleFormat::F32),
    ]
}

#[test]
fn filters_by_format_and_channels() {
    let f = ConfigFilter::from_supported_input_config(sample()).filter_sample_format(SampleFormat::F32);
    assert_eq!(f.clone().inner().iter().map(|r| r.id).collect::<Vec<_>>(), vec![0, 1, 3, 4]);
    let eq = f.clone().filter_channel_count_eq(2).inner();
    assert_eq!(eq.iter().map(|r| r.id).collect::<Vec<_>>(), vec![0, 4]);
    let above = f.clone().filter_channel_count_ge(1).inner();
    assert_eq!(above.iter().map(|r| r.id).collect::<Vec<_>>(), vec![0, 3, 4]);
    let below = f.filter_channel_count_le(2).inner();
    assert_eq!(below.iter().map(|r| r.id).collect::<Vec<_>>(), vec![1]);
}

#[test]
fn smallest_channel_count_takes_the_last_of_the_fewest() {
    let chosen = ConfigFilter::from_supported_output_config(sample())
        .filter_sample_format(SampleFormat::F32)
        .filter_channel_count_ge(1)
        .get_config_smallest_channel_count();
    assert_eq!(chosen, Some(range(4, 2, SampleFormat::F32)));
    let none = ConfigFilter::from_supported_output_config(sample())
        .filter_sample_format(SampleFormat::U8)
        .get_config_smallest_channel_count();
    assert_eq!(none, None);
}

#[test]
fn pop_takes_the_last() {
    let mut f = ConfigFilter::from_supported_input_config(vec![range(7, 1, SampleFormat::F32)]);
    assert_eq!(f.pop(), Some(range(7, 1, SampleFormat::F32)));
    assert_eq!(f.pop(), None);
}

#[test]
fn stream_config_is_the_fewest_channel_f32_one() {
    assert_eq!(choose_stream_config(sample()), Some(range(4, 2, SampleFormat::F32)));
    assert_eq!(choose_stream_config(vec![range(0, 1, SampleFormat::F32)]), None);
    assert_eq!(choose_stream_config(vec![]), None);
}
