use hmtl_kernel::paged_tensor::{allocate_dram_page, compute_average_attention};
use hmtl_kernel::{Fp8, PagedTensorManager, NUM_AXES, NUM_CORES};

/// Number of axes in HBM.
fn occupancy(ptm: &PagedTensorManager) -> usize {
    (0..NUM_AXES).filter(|&axis| ptm.is_resident(axis)).count()
}

fn fp8(x: f32) -> Fp8 {
    Fp8::from_f32(x.to_bits())
}

/// The average of one axis, added up in single precision.
fn average(weights: &[[Fp8; NUM_AXES]; NUM_CORES], axis: usize) -> f32 {
    let mut sum = 0.0f32;
    for core in 0..NUM_CORES {
        sum += f32::from_bits(weights[core][axis].to_f32());
    }
    sum / NUM_CORES as f32
}

#[test]
fn paged_tensor_basic() {
    let ptm = PagedTensorManager::new(100, 0.01f32.to_bits());
    // All axes should be resident initially (up to capacity)
    assert!(ptm.is_resident(0));
    assert!(ptm.is_resident(99));
}

#[test]
fn eviction_on_low_attention() {
    let mut ptm = PagedTensorManager::new(10, 0.05f32.to_bits()); // only 10 HBM slots
    let mut weights = [[Fp8(Fp8::ZERO); NUM_AXES]; NUM_CORES];
    // Very low attention on all axes
    for core in 0..NUM_CORES {
        for axis in 0..NUM_AXES {
            weights[core][axis] = fp8(0.001);
        }
    }
    ptm.tick(&weights);
    assert!(ptm.resident_count() <= 10);
}

#[test]
fn hot_axes_preserved() {
    let mut ptm = PagedTensorManager::new(10, 0.05f32.to_bits());
    let mut weights = [[Fp8(Fp8::ZERO); NUM_AXES]; NUM_CORES];
    // Axes 0–4 are hot (high attention), the rest cold
    for core in 0..NUM_CORES {
        for axis in 0..5 {
            weights[core][axis] = Fp8(Fp8::ONE);
        }
        for axis in 5..NUM_AXES {
            weights[core][axis] = fp8(0.001);
        }
    }
    ptm.tick(&weights);
    // Hot axes should remain resident
    assert!(ptm.is_resident(0));
    assert!(ptm.is_resident(4));
}

#[test]
fn boot_fills_hbm_up_to_its_capacity() {
    for (capacity, fitting) in [(0, 0), (1, 1), (10, 10), (100, 100), (128, 128), (1000, 128)] {
        let ptm = PagedTensorManager::new(capacity, 0.01f32.to_bits());
        assert_eq!(ptm.resident_count(), fitting);
        assert_eq!(occupancy(&ptm), fitting);
        for axis in 0..NUM_AXES {
            assert_eq!(ptm.is_resident(axis), axis < capacity);
            if axis < capacity {
                assert_eq!(ptm.hbm_addr(axis), axis as u64 * 128);
            }
        }
        assert!(!ptm.is_resident(NUM_AXES));
        assert!(!ptm.is_resident(usize::MAX));
    }
}

#[test]
fn occupancy_stays_within_capacity() {
    let mut ptm = PagedTensorManager::new(10, 0.05f32.to_bits());
    let mut weights = [[Fp8(Fp8::ZERO); NUM_AXES]; NUM_CORES];
    for round in 0..30u8 {
        weights[round as usize] = [Fp8(round * 8); NUM_AXES];
        if round % 3 == 0 {
            ptm.evict_axis(round as usize * 4);
        }
        ptm.tick(&weights);
        assert_eq!(ptm.resident_count(), occupancy(&ptm));
        assert!(occupancy(&ptm) <= 10);
    }
}

#[test]
fn ticks_alone_move_no_axis() {
    let mut ptm = PagedTensorManager::new(40, 0.05f32.to_bits());
    let mut weights = [[Fp8(Fp8::ZERO); NUM_AXES]; NUM_CORES];
    for core in 0..NUM_CORES {
        weights[core][90] = Fp8(Fp8::ONE);
    }
    for _ in 0..20 {
        ptm.tick(&weights);
        assert!((0..NUM_AXES).all(|axis| ptm.is_resident(axis) == (axis < 40)));
    }
}

#[test]
fn cold_tick_leaves_no_more_axes_than_fit() {
    let mut ptm = PagedTensorManager::new(10, 0.05f32.to_bits());
    ptm.tick(&[[fp8(0.001); NUM_AXES]; NUM_CORES]);
    assert_eq!(occupancy(&ptm), 10);
}

#[test]
fn average_of_equal_weights_is_the_weight() {
    for bits in 0..=255u8 {
        let weights = [[Fp8(bits); NUM_AXES]; NUM_CORES];
        let r = f32::from_bits(compute_average_attention(&weights, 3));
        let w = f32::from_bits(Fp8(bits).to_f32());
        assert!(r == w || r.is_nan() && w.is_nan(), "{:#04x}", bits);
    }
}

#[test]
fn average_is_added_up_in_single_precision() {
    let mut weights = [[Fp8(Fp8::ZERO); NUM_AXES]; NUM_CORES];
    let mut seed: u32 = 7;
    for core in 0..NUM_CORES {
        for axis in 0..NUM_AXES {
            seed = seed.wrapping_mul(1664525).wrapping_add(1013904223);
            let p = (seed >> 24) as u8 % 0x78;
            weights[core][axis] = match axis % 4 {
                // Small and large weights of one sign.
                0 => Fp8(p),
                // Both signs.
                1 => Fp8(p + (seed as u8 & 0x80)),
                // Mostly the largest weight, so that sums pass 2^24 512ths.
                2 => Fp8(if seed & 0x700 != 0 { Fp8::MAX } else { p % 16 }),
                _ => Fp8(if seed & 0x700 != 0 { Fp8::MIN } else { p % 16 }),
            };
        }
    }
    for axis in 0..NUM_AXES {
        assert_eq!(
            compute_average_attention(&weights, axis),
            average(&weights, axis).to_bits(),
            "axis {}",
            axis
        );
    }
}

#[test]
fn average_rounds_half_to_even() {
    let mut weights = [[Fp8(Fp8::MAX); NUM_AXES]; NUM_CORES];
    weights[100][0] = Fp8(0x01);
    weights[101][1] = Fp8(0x03);
    weights[102][1] = Fp8(0x01);
    for axis in 0..3 {
        assert_eq!(
            compute_average_attention(&weights, axis),
            average(&weights, axis).to_bits()
        );
    }
    assert_eq!(compute_average_attention(&weights, 2), 448.0f32.to_bits());
    assert_eq!(compute_average_attention(&weights, 0), 444.5f32.to_bits());
}

#[test]
fn average_of_special_values() {
    let mut weights = [[Fp8(Fp8::ONE); NUM_AXES]; NUM_CORES];
    weights[5][0] = Fp8(Fp8::INFINITY);
    weights[5][1] = Fp8(Fp8::NEG_INFINITY);
    weights[5][2] = Fp8(Fp8::INFINITY);
    weights[9][2] = Fp8(Fp8::NEG_INFINITY);
    weights[127][3] = Fp8(Fp8::NAN);
    weights[0][4] = Fp8(0xFF);
    weights[1][4] = Fp8(Fp8::INFINITY);
    let r = |axis: usize| f32::from_bits(compute_average_attention(&weights, axis));
    assert_eq!(r(0), f32::INFINITY);
    assert_eq!(r(1), f32::NEG_INFINITY);
    assert!(r(2).is_nan());
    assert!(r(3).is_nan());
    assert!(r(4).is_nan());
    assert_eq!(r(5), 1.0);
}

#[test]
fn dram_pages_have_their_addresses() {
    assert_eq!(allocate_dram_page(0), 0x100_0000_0000);
    assert_eq!(allocate_dram_page(128), 0x100_0000_0000 + 896);
}

#[test]
fn coldest_axis_has_least_attention() {
    let mut ptm = PagedTensorManager::new(128, 0.05f32.to_bits());
    assert_eq!(ptm.find_coldest(), (Some(0), 0.0f32.to_bits()));
    let mut weights = [[Fp8(Fp8::ONE); NUM_AXES]; NUM_CORES];
    for core in 0..NUM_CORES {
        weights[core][40] = fp8(0.25);
        weights[core][90] = fp8(0.25);
        weights[core][91] = fp8(0.5);
    }
    ptm.tick(&weights);
    assert_eq!(ptm.find_coldest(), (Some(40), 0.25f32.to_bits()));
    ptm.evict_axis(40);
    assert_eq!(ptm.find_coldest(), (Some(90), 0.25f32.to_bits()));
}

#[test]
fn axes_without_a_number_are_never_the_coldest() {
    let mut ptm = PagedTensorManager::new(10, 0.05f32.to_bits());
    ptm.tick(&[[Fp8(Fp8::NAN); NUM_AXES]; NUM_CORES]);
    assert_eq!(ptm.find_coldest(), (None, f32::MAX.to_bits()));
    ptm.tick(&[[Fp8(Fp8::NEG_INFINITY); NUM_AXES]; NUM_CORES]);
    assert_eq!(ptm.find_coldest(), (Some(0), f32::NEG_INFINITY.to_bits()));
}

#[test]
fn evicted_axes_come_back_when_there_is_room() {
    let mut ptm = PagedTensorManager::new(128, 0.05f32.to_bits());
    ptm.evict_axis(7);
    ptm.evict_axis(3);
    ptm.evict_axis(7);
    assert!(!ptm.is_resident(7));
    assert!(!ptm.is_resident(3));
    assert!(ptm.is_resident(4));
    assert_eq!(ptm.resident_count(), 126);
    ptm.tick(&[[Fp8(Fp8::ZERO); NUM_AXES]; NUM_CORES]);
    assert!(ptm.is_resident(7));
    assert!(ptm.is_resident(3));
    assert_eq!(ptm.resident_count(), 128);
    assert_eq!(ptm.hbm_addr(7), 7 * 128);
}

#[test]
fn axes_come_in_in_the_order_they_queue() {
    let mut ptm = PagedTensorManager::new(10, 0.05f32.to_bits());
    let weights = [[Fp8(Fp8::ZERO); NUM_AXES]; NUM_CORES];
    ptm.evict_axis(7);
    ptm.evict_axis(3);
    assert_eq!(ptm.resident_count(), 8);
    // Axes 10 to 127 have been waiting since boot.
    ptm.tick(&weights);
    assert_eq!(ptm.resident_count(), 10);
    assert!(ptm.is_resident(10) && ptm.is_resident(11));
    assert!(!ptm.is_resident(12) && !ptm.is_resident(7) && !ptm.is_resident(3));
}

#[test]
fn hot_axes_stay_resident_while_others_are_out() {
    let mut ptm = PagedTensorManager::new(200, 0.05f32.to_bits());
    assert_eq!(ptm.resident_count(), 128);
    ptm.evict_axis(100);
    assert_eq!(ptm.resident_count(), 127);
    ptm.tick(&[[Fp8(Fp8::ONE); NUM_AXES]; NUM_CORES]);
    assert_eq!(ptm.resident_count(), 128);
    assert!((0..NUM_AXES).all(|axis| ptm.is_resident(axis)));
}
