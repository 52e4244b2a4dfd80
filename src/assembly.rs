use vstd::prelude::*;
use vstd::string::StrSliceExecFns;

verus! {

/// One chromosome of an assembly: its name without the `chr` prefix, its
/// length in base pairs and its ordinal within the assembly.
#[derive(Copy, Clone, Debug)]
pub struct Chromosome {
    pub name: &'static str,
    pub length: u32,
    pub index: u8,
}

/// Why an assembly could not be resolved.
#[derive(Copy, Clone, Debug, PartialEq, Eq, Structural)]
pub enum AssemblyError {
    /// The assembly name is neither `GRCH37` nor `GRCH38`.
    UnknownAssembly,
}

/// Number of chromosomes in each supported assembly.
pub const CHROMOSOME_COUNT: usize = 25;

/// The chromosome names shared by both assemblies, in ordinal order.
pub open spec fn chrom_names() -> Seq<Seq<char>> {
    seq![
        "1"@,
        "2"@,
        "3"@,
        "4"@,
        "5"@,
        "6"@,
        "7"@,
        "8"@,
        "9"@,
        "10"@,
        "11"@,
        "12"@,
        "13"@,
        "14"@,
        "15"@,
        "16"@,
        "17"@,
        "18"@,
        "19"@,
        "20"@,
        "21"@,
        "22"@,
        "X"@,
        "Y"@,
        "MT"@,
    ]
}

/// Chromosome lengths of GRCh38, in ordinal order.
pub open spec fn grch38_lengths() -> Seq<u32> {
    seq![
        248956422,
        242193529,
        198295559,
        190214555,
        181538259,
        170805979,
        159345973,
        145138636,
        138394717,
        133797422,
        135086622,
        133275309,
        114364328,
        107043718,
        101991189,
        90338345,
        83257441,
        80373285,
        58617616,
        64444167,
        46709983,
        50818468,
        156040895,
        57227415,
        16569,
    ]
}

/// Chromosome lengths of GRCh37, in ordinal order.
pub open spec fn grch37_lengths() -> Seq<u32> {
    seq![
        249250621,
        243199373,
        198022430,
        191154276,
        180915260,
        171115067,
        159138663,
        146364022,
        141213431,
        135534747,
        135006516,
        133851895,
        115169878,
        107349540,
        102531392,
        90354753,
        81195210,
        78077248,
        59128983,
        63025520,
        48129895,
        51304566,
        155270560,
        59373566,
        16569,
    ]
}

/// `chroms` is the whole table of an assembly with the given lengths.
pub open spec fn is_table(chroms: Seq<Chromosome>, lengths: Seq<u32>) -> bool {
    &&& chroms.len() == CHROMOSOME_COUNT
    &&& forall|i: int|
        0 <= i < CHROMOSOME_COUNT ==> {
            &&& (#[trigger] chroms[i]).name@ == chrom_names()[i]
            &&& chroms[i].length == lengths[i]
            &&& chroms[i].index == i
        }
}

/// The lengths of the named assembly, if it is a supported one.
pub open spec fn assembly_lengths(name: Seq<char>) -> Option<Seq<u32>> {
    if name == "GRCH38"@ {
        Some(grch38_lengths())
    } else if name == "GRCH37"@ {
        Some(grch37_lengths())
    } else {
        None
    }
}

/// A chromosome name with a leading `chr` removed, if it has one.
pub open spec fn chrom_key(s: Seq<char>) -> Seq<char> {
    if s.len() >= 3 && s[0] == 'c' && s[1] == 'h' && s[2] == 'r' {
        s.subrange(3, s.len() as int)
    } else {
        s
    }
}

/// Position of the first chromosome of `chroms` named `key`.
pub open spec fn find_chrom(chroms: Seq<Chromosome>, key: Seq<char>) -> Option<int>
    decreases chroms.len(),
{
    if chroms.len() == 0 {
        None
    } else {
        match find_chrom(chroms.drop_last(), key) {
            Some(p) => Some(p),
            None => if chroms.last().name@ == key {
                Some(chroms.len() - 1)
            } else {
                None
            },
        }
    }
}

/// The characters of an optional chromosome filter.
pub open spec fn filter_view(chromo: Option<&str>) -> Option<Seq<char>> {
    match chromo {
        Some(f) => Some(f@),
        None => None,
    }
}

/// The chromosomes that survive an optional chromosome filter.
pub open spec fn filtered(chroms: Seq<Chromosome>, filter: Option<Seq<char>>) -> Seq<Chromosome> {
    match filter {
        None => chroms,
        Some(f) => match find_chrom(chroms, chrom_key(f)) {
            Some(p) => seq![chroms[p]],
            None => seq![],
        },
    }
}

fn grch38() -> (r: Vec<Chromosome>)
    ensures
        is_table(r@, grch38_lengths()),
{
    vec![
        Chromosome { name: "1", length: 248956422, index: 0 },
        Chromosome { name: "2", length: 242193529, index: 1 },
        Chromosome { name: "3", length: 198295559, index: 2 },
        Chromosome { name: "4", length: 190214555, index: 3 },
        Chromosome { name: "5", length: 181538259, index: 4 },
        Chromosome { name: "6", length: 170805979, index: 5 },
        Chromosome { name: "7", length: 159345973, index: 6 },
        Chromosome { name: "8", length: 145138636, index: 7 },
        Chromosome { name: "9", length: 138394717, index: 8 },
        Chromosome { name: "10", length: 133797422, index: 9 },
        Chromosome { name: "11", length: 135086622, index: 10 },
        Chromosome { name: "12", length: 133275309, index: 11 },
        Chromosome { name: "13", length: 114364328, index: 12 },
        Chromosome { name: "14", length: 107043718, index: 13 },
        Chromosome { name: "15", length: 101991189, index: 14 },
        Chromosome { name: "16", length: 90338345, index: 15 },
        Chromosome { name: "17", length: 83257441, index: 16 },
        Chromosome { name: "18", length: 80373285, index: 17 },
        Chromosome { name: "19", length: 58617616, index: 18 },
        Chromosome { name: "20", length: 64444167, index: 19 },
        Chromosome { name: "21", length: 46709983, index: 20 },
        Chromosome { name: "22", length: 50818468, index: 21 },
        Chromosome { name: "X", length: 156040895, index: 22 },
        Chromosome { name: "Y", length: 57227415, index: 23 },
        Chromosome { name: "MT", length: 16569, index: 24 },
    ]
}

fn grch37() -> (r: Vec<Chromosome>)
    ensures
        is_table(r@, grch37_lengths()),
{
    vec![
        Chromosome { name: "1", length: 249250621, index: 0 },
        Chromosome { name: "2", length: 243199373, index: 1 },
        Chromosome { name: "3", length: 198022430, index: 2 },
        Chromosome { name: "4", length: 191154276, index: 3 },
        Chromosome { name: "5", length: 180915260, index: 4 },
        Chromosome { name: "6", length: 171115067, index: 5 },
        Chromosome { name: "7", length: 159138663, index: 6 },
        Chromosome { name: "8", length: 146364022, index: 7 },
        Chromosome { name: "9", length: 141213431, index: 8 },
        Chromosome { name: "10", length: 135534747, index: 9 },
        Chromosome { name: "11", length: 135006516, index: 10 },
        Chromosome { name: "12", length: 133851895, index: 11 },
        Chromosome { name: "13", length: 115169878, index: 12 },
        Chromosome { name: "14", length: 107349540, index: 13 },
        Chromosome { name: "15", length: 102531392, index: 14 },
        Chromosome { name: "16", length: 90354753, index: 15 },
        Chromosome { name: "17", length: 81195210, index: 16 },
        Chromosome { name: "18", length: 78077248, index: 17 },
        Chromosome { name: "19", length: 59128983, index: 18 },
        Chromosome { name: "20", length: 63025520, index: 19 },
        Chromosome { name: "21", length: 48129895, index: 20 },
        Chromosome { name: "22", length: 51304566, index: 21 },
        Chromosome { name: "X", length: 155270560, index: 22 },
        Chromosome { name: "Y", length: 59373566, index: 23 },
        Chromosome { name: "MT", length: 16569, index: 24 },
    ]
}

/// Whether two strings hold the same characters.
pub fn str_eq(a: &str, b: &str) -> (r: bool)
    ensures
        r == (a@ == b@),
{
    let n = a.unicode_len();
    if n != b.unicode_len() {
        return false;
    }
    let mut i: usize = 0;
    while i < n
        invariant
            n == a@.len(),
            n == b@.len(),
            i <= n,
            forall|j: int| 0 <= j < i ==> a@[j] == b@[j],
        decreases n - i,
    {
        if a.get_char(i) != b.get_char(i) {
            return false;
        }
        i = i + 1;
    }
    proof {
        assert(a@ =~= b@);
    }
    true
}

/// Removes a leading `chr` from a chromosome name, if it has one.
pub fn strip_chr(s: &str) -> (r: &str)
    ensures
        r@ == chrom_key(s@),
{
    let n = s.unicode_len();
    if n >= 3 && s.get_char(0) == 'c' && s.get_char(1) == 'h' && s.get_char(2) == 'r' {
        s.substring_char(3, n)
    } else {
        s
    }
}

/// Looks a chromosome up by name, with or without its `chr` prefix.
pub fn chrom_position(chroms: &Vec<Chromosome>, name: &str) -> (r: Option<usize>)
    ensures
        r matches Some(p) ==> find_chrom(chroms@, chrom_key(name@)) == Some(p as int) && p
            < chroms@.len(),
        r is None ==> find_chrom(chroms@, chrom_key(name@)) is None,
{
    let key = strip_chr(name);
    let mut i: usize = 0;
    while i < chroms.len()
        invariant
            i <= chroms@.len(),
            key@ == chrom_key(name@),
            find_chrom(chroms@.subrange(0, i as int), key@) is None,
        decreases chroms@.len() - i,
    {
        proof {
            lemma_find_chrom_bounds(chroms@.subrange(0, i as int), key@);
        }
        proof {
            assert(chroms@.subrange(0, i + 1).drop_last() =~= chroms@.subrange(0, i as int));
        }
        if str_eq(chroms[i].name, key) {
            proof {
                lemma_find_chrom_prefix(chroms@, key@, i as int + 1);
            }
            proof {
                lemma_find_chrom_bounds(chroms@, key@);
            }
            return Some(i);
        }
        i = i + 1;
    }
    proof {
        assert(chroms@.subrange(0, i as int) =~= chroms@);
        lemma_find_chrom_bounds(chroms@, key@);
    }
    None
}

/// A found position lies in the sequence and names the key.
pub proof fn lemma_find_chrom_bounds(chroms: Seq<Chromosome>, key: Seq<char>)
    ensures
        find_chrom(chroms, key) matches Some(p) ==> 0 <= p < chroms.len() && chroms[p].name@
            == key,
        find_chrom(chroms, key) is None ==> forall|i: int|
            0 <= i < chroms.len() ==> (#[trigger] chroms[i]).name@ != key,
    decreases chroms.len(),
{
    if chroms.len() > 0 {
        let init = chroms.drop_last();
        lemma_find_chrom_bounds(init, key);
        if find_chrom(chroms, key) is None {
            assert forall|i: int| 0 <= i < chroms.len() implies (#[trigger] chroms[i]).name@ != key by {
                if i < chroms.len() - 1 {
                    assert(chroms[i] == init[i]);
                }
            }
        }
    }
}

/// A match found in a prefix is the match of the whole sequence.
proof fn lemma_find_chrom_prefix(chroms: Seq<Chromosome>, key: Seq<char>, n: int)
    requires
        0 <= n <= chroms.len(),
        find_chrom(chroms.subrange(0, n), key) is Some,
    ensures
        find_chrom(chroms, key) == find_chrom(chroms.subrange(0, n), key),
    decreases chroms.len() - n,
{
    if n < chroms.len() {
        assert(chroms.subrange(0, n + 1).drop_last() =~= chroms.subrange(0, n));
        lemma_find_chrom_prefix(chroms, key, n + 1);
    } else {
        assert(chroms.subrange(0, n) =~= chroms);
    }
}

/// Resolves an assembly name to its chromosome table, in ordinal order. Under a
/// chromosome filter (`chr7` or `7`) only that chromosome remains; a filter
/// that names no chromosome of the assembly leaves none.
pub fn select_assembly(assembly_name: &str, chromo: Option<&str>) -> (r: Result<
    Vec<Chromosome>,
    AssemblyError,
>)
    ensures
        assembly_lengths(assembly_name@) is None <==> r is Err,
        r matches Ok(chroms) ==> exists|table: Seq<Chromosome>|
            is_table(table, assembly_lengths(assembly_name@)->0) && chroms@ == filtered(
                table,
                filter_view(chromo),
            ),
{
    let table = if str_eq(assembly_name, "GRCH38") {
        grch38()
    } else if str_eq(assembly_name, "GRCH37") {
        grch37()
    } else {
        return Err(AssemblyError::UnknownAssembly);
    };
    proof {
        assert(is_table(table@, assembly_lengths(assembly_name@)->0));
    }
    match chromo {
        None => {
            proof {
                assert(table@ == filtered(table@, filter_view(chromo)));
            }
            Ok(table)
        },
        Some(f) => match chrom_position(&table, f) {
            Some(p) => {
                proof {
                    lemma_find_chrom_bounds(table@, chrom_key(f@));
                    assert(find_chrom(table@, chrom_key(f@)) == Some(p as int));
                }
                let r = vec![table[p]];
                proof {
                    assert(r@ =~= filtered(table@, filter_view(chromo)));
                }
                Ok(r)
            },
            None => {
                let r: Vec<Chromosome> = Vec::new();
                proof {
                    assert(r@ =~= filtered(table@, filter_view(chromo)));
                }
                Ok(r)
            },
        },
    }
}

/// Number of fixed-width buckets needed to cover `length` base pairs.
pub open spec fn spec_bucket_count(length: nat, bucket_size: nat) -> nat
    recommends
        bucket_size > 0,
{
    (length + bucket_size - 1) as nat / bucket_size
}

/// Returns the bucket count for a chromosome: the length divided by the bucket
/// size, rounded up.
pub fn bucket_count(length: u32, bucket_size: u32) -> (r: u32)
    requires
        bucket_size > 0,
    ensures
        r as nat == spec_bucket_count(length as nat, bucket_size as nat),
{
    let q = length / bucket_size;
    if length % bucket_size == 0 {
        proof {
            assert((length + bucket_size - 1) as nat / bucket_size as nat == q) by (nonlinear_arith)
                requires
                    q == length / bucket_size,
                    length % bucket_size == 0,
                    bucket_size > 0,
            ;
        }
        q
    } else {
        assert(bucket_size > 1);
        assert(q <= length / 2) by (nonlinear_arith)
            requires
                q == length / bucket_size,
                bucket_size > 1,
        ;
        proof {
            assert((length + bucket_size - 1) as nat / bucket_size as nat == q + 1) by (nonlinear_arith)
                requires
                    q == length / bucket_size,
                    length % bucket_size != 0,
                    bucket_size > 0,
            ;
        }
        q + 1
    }
}

} // verus!
