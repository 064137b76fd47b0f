use worklist_sort::Interval;

struct Rand {
    state: u32,
}

// linear congruential method
impl Rand {
    const A: u32 = 5u32; // must be % 4 == 1 and < u32::MAX
    const C: u32 = 3u32; // must be odd      and < u32::MAX

    fn new(seed: u32) -> Rand {
        Rand { state: seed }
    }

    fn gen(&mut self, i: &Interval) -> u32 {
        self.state = self.state.wrapping_mul(Rand::A).wrapping_add(Rand::C);
        (self.state % (i.high - i.low) as u32) + i.low as u32
    }
}

fn random_vector(rnd: &mut Rand, len_range: &Interval, num_range: &Interval) -> Vec<i32> {
    let len = rnd.gen(len_range);
    let mut vec = Vec::new();
    for _ in 0..len {
        vec.push(rnd.gen(num_range) as i32);
    }
    vec
}

#[test]
fn fuzzing() {
    let mut rand = Rand::new(0x1337);
    for _ in 0..10000 {
        let mut v = random_vector(
            &mut rand,
            &Interval { low: 2, high: 30 },
            &Interval { low: 0, high: 5 },
        );
        let copy = v.clone();
        worklist_sort::sort_1(v.as_mut_slice());
        println!(
            "len={},\n  unsorted={:?},\n  sorted  ={:?}",
            v.len(),
            copy,
            v
        );
        for n in 0..v.len() - 2 {
            assert!(
                v[n as usize] <= v[(n + 1) as usize],
                "\nexpected index [{}]={} <= [{}]={}",
                n,
                v[n as usize],
                n + 1,
                v[(n + 1) as usize]
            );
        }
    }
}
