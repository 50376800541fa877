//! The plan of the benchmark data set: which files go in which directory,
//! under which name and with which size, given one random draw per file.
use vstd::prelude::*;

use vstd::string::StringExecFns;

verus! {

/// Number of files in the `small` directory.
pub const SMALL_FILES: usize = 100;

/// Number of files in the `med` directory.
pub const MED_FILES: usize = 10;

/// Number of files in the `large` directory.
pub const LARGE_FILES: usize = 3;

/// Number of files in the whole data set.
pub const TEST_DATA_FILES: usize = 113;

/// One MiB.
pub const MIB: usize = 1048576;

/// One GiB.
pub const GIB: usize = 1073741824;

/// The directories of the data set.
#[derive(Clone, Copy, Debug, PartialEq, Eq, Structural)]
pub enum TestDataDir {
    /// Files under 1 MiB.
    Small,
    /// Files of 1 MiB up to 100 MiB.
    Med,
    /// Files of 1 GiB up to 2 GiB.
    Large,
}

/// A file of the data set.
pub struct TestFile {
    pub dir: TestDataDir,
    pub name: String,
    pub size: usize,
}

/// The name of a directory.
pub open spec fn dir_name(d: TestDataDir) -> Seq<char> {
    match d {
        TestDataDir::Small => seq!['s', 'm', 'a', 'l', 'l'],
        TestDataDir::Med => seq!['m', 'e', 'd'],
        TestDataDir::Large => seq!['l', 'a', 'r', 'g', 'e'],
    }
}

impl TestDataDir {
    /// The directory's name under the data set's root.
    pub fn name(&self) -> (n: &'static str)
        ensures
            n@ == dir_name(*self),
    {
        match self {
            TestDataDir::Small => {
                proof {
                    reveal_strlit("small");
                }
                "small"
            },
            TestDataDir::Med => {
                proof {
                    reveal_strlit("med");
                }
                "med"
            },
            TestDataDir::Large => {
                proof {
                    reveal_strlit("large");
                }
                "large"
            },
        }
    }
}

/// The directory of the `i`-th file: the first hundred are small, the next
/// ten medium, the last three large.
pub open spec fn plan_dir(i: int) -> TestDataDir {
    if i < SMALL_FILES {
        TestDataDir::Small
    } else if i < SMALL_FILES + MED_FILES {
        TestDataDir::Med
    } else {
        TestDataDir::Large
    }
}

/// The position of the `i`-th file within its directory.
pub open spec fn index_in_dir(i: int) -> int {
    if i < SMALL_FILES {
        i
    } else if i < SMALL_FILES + MED_FILES {
        i - SMALL_FILES
    } else {
        i - SMALL_FILES - MED_FILES
    }
}

/// The number of digits a file's position is written with in its name.
pub open spec fn name_width(d: TestDataDir) -> nat {
    match d {
        TestDataDir::Small => 3,
        TestDataDir::Med => 2,
        TestDataDir::Large => 1,
    }
}

/// The last `w` decimal digits of `n`, zero-padded.
pub open spec fn padded_decimal(n: nat, w: nat) -> Seq<char>
    decreases w,
{
    if w == 0 {
        Seq::empty()
    } else {
        padded_decimal(n / 10, (w - 1) as nat).push(((n % 10) + 48) as char)
    }
}

/// The name of the `i`-th file: `file_`, its position in its directory in
/// decimal, zero-padded to the directory's width, and `.bin`.
pub open spec fn plan_name(i: int) -> Seq<char> {
    seq!['f', 'i', 'l', 'e', '_'] + padded_decimal(index_in_dir(i) as nat, name_width(plan_dir(i)))
        + seq!['.', 'b', 'i', 'n']
}

/// The size of the `i`-th file for the random draw `draw`: a small file takes
/// the low 32 bits modulo 1 MiB; a medium one 1 MiB plus the draw modulo
/// 99 MiB; a large one 1 GiB plus the draw modulo 1 GiB.
pub open spec fn plan_size(i: int, draw: u64) -> int {
    if i < SMALL_FILES {
        ((draw as u32) % (MIB as u32)) as int
    } else if i < SMALL_FILES + MED_FILES {
        MIB + (draw % (99 * MIB) as u64) as int
    } else {
        GIB + (draw % (GIB as u64)) as int
    }
}

/// The digits of `n` written with `w` places.
fn padded_digits(n: usize, w: usize) -> (s: String)
    ensures
        s@ == padded_decimal(n as nat, w as nat),
    decreases w,
{
    if w == 0 {
        return String::new();
    }
    let mut s = padded_digits(n / 10, w - 1);
    let d = n % 10;
    let digit: &str = if d == 0 {
        proof {
            reveal_strlit("0");
        }
        "0"
    } else if d == 1 {
        proof {
            reveal_strlit("1");
        }
        "1"
    } else if d == 2 {
        proof {
            reveal_strlit("2");
        }
        "2"
    } else if d == 3 {
        proof {
            reveal_strlit("3");
        }
        "3"
    } else if d == 4 {
        proof {
            reveal_strlit("4");
        }
        "4"
    } else if d == 5 {
        proof {
            reveal_strlit("5");
        }
        "5"
    } else if d == 6 {
        proof {
            reveal_strlit("6");
        }
        "6"
    } else if d == 7 {
        proof {
            reveal_strlit("7");
        }
        "7"
    } else if d == 8 {
        proof {
            reveal_strlit("8");
        }
        "8"
    } else {
        proof {
            reveal_strlit("9");
        }
        "9"
    };
    assert(digit@ =~= seq![((n as nat % 10) + 48) as char]);
    s.append(digit);
    s
}

/// The `i`-th file of the data set, for the random draw `draw`.
pub fn test_file(i: usize, draw: u64) -> (file: TestFile)
    requires
        i < TEST_DATA_FILES,
    ensures
        file.dir == plan_dir(i as int),
        file.name@ == plan_name(i as int),
        file.size == plan_size(i as int, draw),
{
    let (dir, j, w) = if i < SMALL_FILES {
        (TestDataDir::Small, i, 3)
    } else if i < SMALL_FILES + MED_FILES {
        (TestDataDir::Med, i - SMALL_FILES, 2)
    } else {
        (TestDataDir::Large, i - SMALL_FILES - MED_FILES, 1)
    };
    proof {
        reveal_strlit("file_");
        reveal_strlit(".bin");
    }
    let mut name = String::new();
    name.append("file_");
    let digits = padded_digits(j, w);
    name.append(digits.as_str());
    name.append(".bin");
    let size: usize = if i < SMALL_FILES {
        ((draw as u32) % (MIB as u32)) as usize
    } else if i < SMALL_FILES + MED_FILES {
        MIB + (draw % (99 * MIB) as u64) as usize
    } else {
        GIB + (draw % (GIB as u64)) as usize
    };
    TestFile { dir, name, size }
}

/// The whole data set for one random draw per file, in order: the small
/// files, then the medium ones, then the large ones.
pub fn test_data_plan(draws: &Vec<u64>) -> (plan: Vec<TestFile>)
    requires
        draws.len() == TEST_DATA_FILES,
    ensures
        plan.len() == TEST_DATA_FILES,
        forall|i: int|
            0 <= i < TEST_DATA_FILES ==> {
                &&& (#[trigger] plan[i]).dir == plan_dir(i)
                &&& plan[i].name@ == plan_name(i)
                &&& plan[i].size == plan_size(i, draws[i])
            },
{
    let mut plan: Vec<TestFile> = Vec::new();
    let mut i: usize = 0;
    while i < TEST_DATA_FILES
        invariant
            i <= TEST_DATA_FILES,
            draws.len() == TEST_DATA_FILES,
            plan.len() == i,
            forall|k: int|
                0 <= k < i ==> {
                    &&& (#[trigger] plan[k]).dir == plan_dir(k)
                    &&& plan[k].name@ == plan_name(k)
                    &&& plan[k].size == plan_size(k, draws[k])
                },
        decreases TEST_DATA_FILES - i,
    {
        plan.push(test_file(i, draws[i]));
        i = i + 1;
    }
    plan
}

/// Every file lies in its directory's size band: small files under 1 MiB,
/// medium ones from 1 MiB to under 100 MiB, large ones from 1 GiB to under
/// 2 GiB.
pub proof fn lemma_plan_sizes_in_band(i: int, draw: u64)
    requires
        0 <= i < TEST_DATA_FILES,
    ensures
        plan_dir(i) == TestDataDir::Small ==> 0 <= plan_size(i, draw) < MIB,
        plan_dir(i) == TestDataDir::Med ==> MIB <= plan_size(i, draw) < 100 * MIB,
        plan_dir(i) == TestDataDir::Large ==> GIB <= plan_size(i, draw) < 2 * GIB,
{
}

/// A file's size is its band's base plus the whole random draw reduced
/// modulo the band's width: it lies in the band and differs from the draw by
/// a multiple of the width (for a small file, whose draw is the generator's
/// 32-bit draw, the width is 1 MiB, which divides 2^32).
pub proof fn lemma_plan_size_follows_the_draw(i: int, draw: u64)
    requires
        0 <= i < TEST_DATA_FILES,
    ensures
        plan_dir(i) == TestDataDir::Small ==> {
            let size = plan_size(i, draw);
            &&& 0 <= size < MIB
            &&& (draw - size) % (MIB as int) == 0
        },
        plan_dir(i) == TestDataDir::Med ==> {
            let size = plan_size(i, draw);
            &&& MIB <= size < 100 * MIB
            &&& (draw - (size - MIB)) % (99 * MIB) == 0
        },
        plan_dir(i) == TestDataDir::Large ==> {
            let size = plan_size(i, draw);
            &&& GIB <= size < 2 * GIB
            &&& (draw - (size - GIB)) % (GIB as int) == 0
        },
{
    let d = draw as int;
    if i < SMALL_FILES {
        let low = (draw as u32) as int;
        assert((draw as u32) as u64 == draw % 0x1_0000_0000u64) by (bit_vector);
        assert(low == d % 0x1_0000_0000);
        assert((d - low % 1048576) % 1048576 == 0) by (nonlinear_arith)
            requires
                low == d % 0x1_0000_0000,
                d >= 0,
        {
            assert(d == (d / 0x1_0000_0000) * 0x1_0000_0000 + low);
            assert(0x1_0000_0000 == 4096 * 1048576);
            assert(low == (low / 1048576) * 1048576 + low % 1048576);
            assert(d - low % 1048576 == ((d / 0x1_0000_0000) * 4096 + low / 1048576) * 1048576);
        }
    } else if i < SMALL_FILES + MED_FILES {
        assert((d - d % 103809024) % 103809024 == 0) by (nonlinear_arith)
            requires
                d >= 0,
        {
            assert(d - d % 103809024 == (d / 103809024) * 103809024);
        }
    } else {
        assert((d - d % 1073741824) % 1073741824 == 0) by (nonlinear_arith)
            requires
                d >= 0,
        {
            assert(d - d % 1073741824 == (d / 1073741824) * 1073741824);
        }
    }
}

proof fn lemma_padded_decimal(n: nat, w: nat)
    requires
        n < crate::codec::pow10(w),
    ensures
        padded_decimal(n, w).len() == w,
        forall|k: int| 0 <= k < w ==> crate::text::is_digit(#[trigger] padded_decimal(n, w)[k]),
        crate::text::decimal_value(padded_decimal(n, w)) == n,
    decreases w,
{
    if w > 0 {
        let m = crate::codec::pow10((w - 1) as nat);
        assert(crate::codec::pow10(w) == 10 * m);
        assert(n / 10 < m) by (nonlinear_arith)
            requires
                n < 10 * m,
        ;
        lemma_padded_decimal(n / 10, (w - 1) as nat);
        let s = padded_decimal(n / 10, (w - 1) as nat);
        let c = ((n % 10) + 48) as char;
        assert(padded_decimal(n, w) == s.push(c));
        assert((c as u32) == (n % 10) + 48);
        assert(s.push(c).drop_last() =~= s);
        assert(s.push(c).last() == c);
        assert forall|k: int| 0 <= k < w implies crate::text::is_digit(#[trigger] s.push(c)[k]) by {
            if k < w - 1 {
                assert(s.push(c)[k] == s[k]);
            }
        }
    } else {
        assert(crate::codec::pow10(0) == 1);
    }
}

/// Every file's name is `file_`, then its position within its directory in
/// decimal (three digits for small files, two for medium, one for large),
/// then `.bin`.
pub proof fn lemma_plan_name_spells_the_index(i: int)
    requires
        0 <= i < TEST_DATA_FILES,
    ensures
        ({
            let name = plan_name(i);
            let (w, position) = if i < 100 {
                (3int, i)
            } else if i < 110 {
                (2int, i - 100)
            } else {
                (1int, i - 110)
            };
            &&& name.len() == 9 + w
            &&& name.subrange(0, 5) == seq!['f', 'i', 'l', 'e', '_']
            &&& name.subrange(5 + w, 9 + w) == seq!['.', 'b', 'i', 'n']
            &&& forall|k: int| 5 <= k < 5 + w ==> crate::text::is_digit(#[trigger] name[k])
            &&& crate::text::decimal_value(name.subrange(5, 5 + w)) == position
        }),
{
    let w = name_width(plan_dir(i));
    let j = index_in_dir(i) as nat;
    assert(crate::codec::pow10(1) == 10) by {
        reveal_with_fuel(crate::codec::pow10, 2);
    }
    assert(crate::codec::pow10(2) == 100) by {
        reveal_with_fuel(crate::codec::pow10, 3);
    }
    assert(crate::codec::pow10(3) == 1000) by {
        reveal_with_fuel(crate::codec::pow10, 4);
    }
    lemma_padded_decimal(j, w);
    let d = padded_decimal(j, w);
    let name = plan_name(i);
    assert(name == seq!['f', 'i', 'l', 'e', '_'] + d + seq!['.', 'b', 'i', 'n']);
    assert(name.subrange(0, 5) =~= seq!['f', 'i', 'l', 'e', '_']);
    assert(name.subrange(5, 5 + w as int) =~= d);
    assert(name.subrange(5 + w as int, 9 + w as int) =~= seq!['.', 'b', 'i', 'n']);
    assert forall|k: int| 5 <= k < 5 + w implies crate::text::is_digit(#[trigger] name[k]) by {
        assert(name[k] == d[k - 5]);
    }
}

} // verus!
