use textlines::bitmap::Bitmap;
use textlines::stats::{get_activation_stats, ActivationStats, Mean};

fn gray_map(width: u32, height: u32, values: &[u8]) -> Bitmap {
    let mut samples = Vec::new();
    for v in values {
        samples.extend_from_slice(&[*v, *v, *v]);
    }
    Bitmap::from_raw(width, height, samples).unwrap()
}

#[test]
fn statistics_of_a_small_map() {
    let stats = get_activation_stats(&gray_map(3, 2, &[0, 10, 0, 255, 3, 0]));
    assert_eq!(stats.max, 255);
    assert_eq!(stats.min, 0);
    assert_eq!(stats.activation_count, 3);
    let mean = stats.avg_activation.unwrap();
    assert_eq!(mean.total, 268);
    assert_eq!(mean.count, 3);
    assert_eq!(mean.total as f32 / mean.count as f32, 268.0f32 / 3.0f32);
}

#[test]
fn a_map_of_zeros_has_no_mean() {
    let stats = get_activation_stats(&gray_map(4, 3, &[0; 12]));
    assert_eq!(stats.max, 0);
    assert_eq!(stats.min, 0);
    assert_eq!(stats.activation_count, 0);
    assert!(stats.avg_activation.is_none());
}

#[test]
fn a_map_without_pixels() {
    let stats = get_activation_stats(&gray_map(0, 0, &[]));
    assert_eq!(stats.max, 0);
    assert_eq!(stats.min, 255);
    assert_eq!(stats.activation_count, 0);
    assert!(stats.avg_activation.is_none());
}

#[test]
fn the_least_activation_may_be_above_zero() {
    let stats = get_activation_stats(&gray_map(2, 2, &[9, 4, 200, 7]));
    assert_eq!(stats.max, 200);
    assert_eq!(stats.min, 4);
    assert_eq!(stats.activation_count, 4);
    let mean = stats.avg_activation.unwrap();
    assert_eq!((mean.total, mean.count), (220, 4));
}

#[test]
fn only_the_first_channel_is_read() {
    let map = Bitmap::from_raw(2, 1, vec![0, 200, 200, 5, 0, 0]).unwrap();
    let stats = get_activation_stats(&map);
    assert_eq!(stats.max, 5);
    assert_eq!(stats.min, 0);
    assert_eq!(stats.activation_count, 1);
    let mean = stats.avg_activation.unwrap();
    assert_eq!((mean.total, mean.count), (5, 1));
}

#[test]
fn the_count_is_the_number_of_pixels_above_zero() {
    let values: Vec<u8> = (0..200u32).map(|i| if i % 7 == 0 { 0 } else { (i % 250) as u8 + 1 }).collect();
    let positive = values.iter().filter(|v| **v > 0).count() as u64;
    let total: u128 = values.iter().map(|v| *v as u128).sum();
    let stats = get_activation_stats(&gray_map(20, 10, &values));
    assert_eq!(stats.activation_count, positive);
    assert_eq!(stats.activation_count, 171);
    let mean = stats.avg_activation.unwrap();
    assert_eq!(mean.total, total);
    assert_eq!(mean.count, positive);
}

#[test]
fn statistics_as_a_whole() {
    assert_eq!(
        get_activation_stats(&gray_map(2, 3, &[1, 2, 3, 0, 0, 250])),
        ActivationStats {
            max: 250,
            min: 0,
            activation_count: 4,
            avg_activation: Some(Mean { total: 256, count: 4 }),
        }
    );
    assert_eq!(
        get_activation_stats(&gray_map(1, 2, &[0, 0])),
        ActivationStats { max: 0, min: 0, activation_count: 0, avg_activation: None }
    );
}
