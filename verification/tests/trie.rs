use set_trie::{assert_sorted, make_sorted, DefinitelySorted, SetTrie};

#[test]
fn insert() {
    let mut v = SetTrie::<char>::new();
    v.insert(DefinitelySorted::hasty_new(&[1, 2, 3]), 'a');
    assert!(v.contains(DefinitelySorted::hasty_new(&[1, 2, 3]), &'a'));
}

#[test]
fn remove_small() {
    let mut v = SetTrie::<char>::new();
    v.insert(DefinitelySorted::hasty_new(&[1, 2, 3]), 'a');
    assert!(v.remove(DefinitelySorted::hasty_new(&[1, 2, 3]), &'a').is_some());
    assert!(!v.contains(DefinitelySorted::hasty_new(&[1, 2, 3]), &'a'));
}

#[test]
fn superset_small() {
    let mut v = SetTrie::<char>::new();
    v.insert(assert_sorted(&[1, 2, 3]).unwrap(), 'a');
    v.insert(assert_sorted(&[1, 2, 4]).unwrap(), 'b');
    v.insert(assert_sorted(&[0, 2, 4]).unwrap(), 'c');

    let qr = v.supersets(assert_sorted(&[1, 2]).unwrap());

    assert!(qr.len() == 2);
    assert!(qr.contains(&&'a'));
    assert!(qr.contains(&&'b'));
}

#[test]
fn readme_example() {
    let mut v = SetTrie::<char>::new();
    v.insert(assert_sorted(&[1, 2, 3]).unwrap(), 'a');
    v.insert(assert_sorted(&[1, 2, 4]).unwrap(), 'b');
    v.insert(assert_sorted(&[1, 2]).unwrap(), 'c');
    v.insert(assert_sorted(&[7]).unwrap(), 'd');
    v.insert(assert_sorted(&[]).unwrap(), 'e');

    let supersets = v.supersets(assert_sorted(&[1, 2]).unwrap());
    assert!(supersets.len() == 3);
    assert!(supersets.contains(&&'a'));
    assert!(supersets.contains(&&'b'));
    assert!(supersets.contains(&&'c'));

    let subsets = v.subsets(assert_sorted(&[1, 2, 3]).unwrap());
    assert!(subsets.len() == 3);
    assert!(subsets.contains(&&'a'));
    assert!(subsets.contains(&&'c'));
    assert!(subsets.contains(&&'e'));
}

#[test]
fn subset_small() {
    let mut v = SetTrie::<char>::new();
    v.insert(assert_sorted(&[1, 2, 3]).unwrap(), 'a');
    v.insert(assert_sorted(&[1, 2]).unwrap(), 'b');
    v.insert(assert_sorted(&[0, 2, 4]).unwrap(), 'c');
    v.insert(assert_sorted(&[0]).unwrap(), 'd');
    v.insert(assert_sorted(&[0, 3]).unwrap(), 'e');
    v.insert(assert_sorted(&[]).unwrap(), 'f');

    let results = v.subsets(assert_sorted(&[1, 2, 3]).unwrap());
    assert!(results.contains(&&'a'));
    assert!(results.contains(&&'b'));
    assert!(results.contains(&&'f'));
}

/// A small xorshift generator, enough to drive the randomized scenario
/// below deterministically.
struct XorShift {
    x: u32,
    y: u32,
    z: u32,
    w: u32,
}

impl XorShift {
    fn from_seed(s: [u8; 16]) -> XorShift {
        let word = |i: usize| {
            u32::from_le_bytes([s[i], s[i + 1], s[i + 2], s[i + 3]])
        };
        let mut r = XorShift { x: word(0), y: word(4), z: word(8), w: word(12) };
        if r.x == 0 && r.y == 0 && r.z == 0 && r.w == 0 {
            r.w = 0x9e3779b9;
        }
        r
    }

    fn next_u32(&mut self) -> u32 {
        let t = self.x ^ (self.x << 11);
        self.x = self.y;
        self.y = self.z;
        self.z = self.w;
        self.w = self.w ^ (self.w >> 19) ^ (t ^ (t >> 8));
        self.w
    }

    fn gen_range(&mut self, lo: usize, hi: usize) -> usize {
        lo + (self.next_u32() as usize) % (hi - lo)
    }
}

fn from_seed(see: usize) -> XorShift {
    let mut s = [0u8; 16];
    for (i, b) in s.iter_mut().enumerate() {
        *b = ((i + see).wrapping_mul(77) as u8).wrapping_mul(77);
    }
    XorShift::from_seed(s)
}

fn generate_big_superset_example(seed: usize) -> (SetTrie<bool>, Vec<u64>) {
    let mut katy = from_seed(seed);
    let mut v = SetTrie::<bool>::new();
    let n_minimal = 10;
    let n_other = 90;
    let n_all = n_minimal + n_other;

    let mut bag = Vec::with_capacity(n_all);
    let mut acc: u64 = 0;
    for _ in 0..n_all {
        acc += katy.gen_range(1, 30) as u64;
        bag.push(acc);
    }

    let take_from = |v: &mut Vec<u64>, katy: &mut XorShift| -> u64 {
        let i = katy.gen_range(0, v.len());
        if v.len() == 1 {
            v[0]
        } else {
            let endi = v.len() - 1;
            v.swap(i, endi);
            v.pop().unwrap()
        }
    };

    let mut in_set = Vec::with_capacity(n_other);
    for _ in 0..n_minimal {
        in_set.push(take_from(&mut bag, &mut katy));
    }

    let mut out_set = Vec::with_capacity(n_other);
    for _ in 0..n_other {
        out_set.push(take_from(&mut bag, &mut katy));
    }

    // insert matching
    for _ in 0..30 {
        let mut keyset = in_set.clone();
        for _ in 0..(katy.gen_range(3, 8)) {
            keyset.push(out_set[katy.gen_range(0, out_set.len())]);
        }
        v.insert(make_sorted(&mut keyset), true)
    }

    // insert non-matching
    for _ in 0..800 {
        let mut keyset = Vec::new();
        for _ in 0..(katy.gen_range(5, 30)) {
            keyset.push(out_set[katy.gen_range(0, out_set.len())]);
        }
        v.insert(make_sorted(&mut keyset), false)
    }

    (v, in_set)
}

#[test]
fn superset_big() {
    for i in 0..57 {
        let (v, mut search_set) = generate_big_superset_example(i);
        let r: Vec<&bool> = v.supersets(make_sorted(&mut search_set));
        assert!(r.len() >= 30);
        assert!(r.iter().filter(|b| ***b).count() == 30);
    }
}
