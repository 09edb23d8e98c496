//! Presses a batch of randomly filled blocks of mixed sizes.
use blockpress::Collector;
use rand::Rng;
use rand::SeedableRng;
use rand::rngs::SmallRng;

fn generate_test_data(size_count: Vec<(usize, usize)>, rng: &mut impl Rng) -> Vec<Vec<u8>> {
    let mut data = Vec::new();
    for (size, count) in size_count {
        for _ in 0..count {
            let mut buffer = vec![0; size];
            rng.fill(buffer.as_mut_slice());
            data.push(buffer);
        }
    }
    data
}

#[test]
fn random_data() {
    let mut output: Vec<u8> = Vec::new();
    let data_size_count = vec![(7, 3), (5, 2), (10, 1), (25, 6), (39, 4)];
    let mut rng = SmallRng::seed_from_u64(42);
    let data = generate_test_data(data_size_count, &mut rng);
    let mut collector = Collector::new();
    for buffer in data {
        collector.add(&buffer).unwrap();
    }
    collector.press(&mut output).unwrap();
}
