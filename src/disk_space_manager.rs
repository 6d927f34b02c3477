//! Partition numbering for a storage directory. The directory holds one
//! file per partition, named by the partition's decimal number; the caller
//! lists and opens those files, this module decides the numbers.
use crate::error::StorageError;
use vstd::prelude::*;

verus! {

pub open spec fn is_digit(c: char) -> bool {
    '0' <= c <= '9'
}

/// The number that the decimal digits `s` spell.
pub open spec fn decimal_value(s: Seq<char>) -> int
    decreases s.len(),
{
    if s.len() == 0 {
        0
    } else {
        10 * decimal_value(s.drop_last()) + (s.last() as int - '0' as int)
    }
}

/// Whether `s` names a partition file: one or more decimal digits whose
/// value is at most `isize::MAX`.
pub open spec fn is_partition_name(s: Seq<char>) -> bool {
    &&& s.len() > 0
    &&& forall|i: int| 0 <= i < s.len() ==> is_digit(#[trigger] s[i])
    &&& decimal_value(s) <= isize::MAX
}

/// The first number above every number of `nums`; zero when there is none.
pub open spec fn next_after(nums: Seq<usize>) -> int
    decreases nums.len(),
{
    if nums.len() == 0 {
        0
    } else if next_after(nums.drop_last()) > nums.last() + 1 {
        next_after(nums.drop_last())
    } else {
        nums.last() + 1
    }
}

proof fn lemma_decimal_prefix(s: Seq<char>, k: int)
    requires
        0 <= k <= s.len(),
        forall|i: int| 0 <= i < s.len() ==> is_digit(#[trigger] s[i]),
    ensures
        0 <= decimal_value(s.subrange(0, k)) <= decimal_value(s),
    decreases s.len(),
{
    if k < s.len() {
        assert(s.drop_last() =~= s.subrange(0, s.len() - 1));
        lemma_decimal_prefix(s.drop_last(), k);
        assert(s.drop_last().subrange(0, k) =~= s.subrange(0, k));
    } else {
        assert(s.subrange(0, k) =~= s);
        if s.len() > 0 {
            lemma_decimal_prefix(s.drop_last(), s.len() - 1);
            assert(s.drop_last().subrange(0, s.len() - 1) =~= s.drop_last());
        }
    }
}

/// The partition number that the file name `name` gives, or `None` when
/// the name is not a partition number.
pub fn parse_partition_number(name: &str) -> (r: Option<usize>)
    ensures
        r == if is_partition_name(name@) {
            Some(decimal_value(name@) as usize)
        } else {
            None::<usize>
        },
{
    let len = name.unicode_len();
    if len == 0 {
        return None;
    }
    let mut value: usize = 0;
    let mut i: usize = 0;
    while i < len
        invariant
            len == name@.len(),
            i <= len,
            forall|k: int| 0 <= k < i ==> is_digit(#[trigger] name@[k]),
            value == decimal_value(name@.subrange(0, i as int)),
            value <= isize::MAX,
        decreases len - i,
    {
        let c = name.get_char(i);
        proof {
            assert(name@.subrange(0, i + 1).drop_last() =~= name@.subrange(0, i as int));
        }
        if c < '0' || c > '9' {
            return None;
        }
        let d = (c as u32 - '0' as u32) as usize;
        let limit = (isize::MAX as usize - d) / 10;
        if value > limit {
            proof {
                let m = isize::MAX as int;
                assert(value * 10 + d > m) by (nonlinear_arith)
                    requires
                        value > limit,
                        limit == (m - d) / 10,
                        0 <= d <= 9,
                        m > 9,
                ;
                if is_partition_name(name@) {
                    lemma_decimal_prefix(name@, i + 1);
                }
            }
            return None;
        }
        proof {
            assert(value * 10 + d <= isize::MAX) by (nonlinear_arith)
                requires
                    value <= limit,
                    limit == (isize::MAX - d) / 10,
                    0 <= d <= 9,
            ;
        }
        value = value * 10 + d;
        i = i + 1;
    }
    proof {
        assert(name@.subrange(0, len as int) =~= name@);
    }
    Some(value)
}

/// The partition numbers that the file names `names` spell.
pub open spec fn parsed_numbers(names: Seq<String>) -> Seq<usize> {
    names.map_values(|s: String| decimal_value(s@) as usize)
}

/// Whether `i` is the first of `names` that is not a partition name.
pub open spec fn first_bad_name(names: Seq<String>, i: int) -> bool {
    &&& 0 <= i < names.len()
    &&& !is_partition_name(names[i]@)
    &&& forall|k: int| 0 <= k < i ==> is_partition_name(#[trigger] names[k]@)
}

/// Numbering resumes above every partition found in the directory: the
/// counter that `new` sets exceeds each parsed number.
pub proof fn lemma_next_after_bound(nums: Seq<usize>)
    ensures
        0 <= next_after(nums),
        forall|k: int| 0 <= k < nums.len() ==> nums[k] < next_after(nums),
    decreases nums.len(),
{
    if nums.len() > 0 {
        lemma_next_after_bound(nums.drop_last());
        assert forall|k: int| 0 <= k < nums.len() - 1 implies nums[k] == nums.drop_last()[k] by {}
    }
}

/// Numbers the partitions of one storage directory.
pub struct DiskSpaceManager {
    part_nums: Vec<usize>,
    db_dir: String,
    part_num_counter: usize,
}

impl DiskSpaceManager {
    /// The partition numbers registered with the manager.
    pub closed spec fn registered(&self) -> Set<usize> {
        Set::new(|n: usize| self.part_nums@.contains(n))
    }

    /// The number that the next call of `alloc_partition` hands out.
    pub closed spec fn spec_next_part_num(&self) -> usize {
        self.part_num_counter
    }

    /// The storage directory.
    pub closed spec fn spec_db_dir(&self) -> Seq<char> {
        self.db_dir@
    }

    /// The manager of directory `db_dir`, whose files are named `entry_names`
    /// (none for a directory that was just created). Every name is
    /// registered as a partition, and numbering resumes one past the largest.
    /// Fails with `CorruptDirectory`, carrying the first name that is not a
    /// partition number, when there is one.
    pub fn new(db_dir: String, entry_names: &Vec<String>) -> (r: Result<DiskSpaceManager, StorageError>)
        ensures
            r is Ok <==> forall|i: int|
                0 <= i < entry_names@.len() ==> is_partition_name(#[trigger] entry_names@[i]@),
            match r {
                Ok(m) => {
                    &&& m.spec_db_dir() == db_dir@
                    &&& m.registered() == parsed_numbers(entry_names@).to_set()
                    &&& m.spec_next_part_num() == next_after(parsed_numbers(entry_names@))
                },
                Err(e) => exists|i: int|
                    first_bad_name(entry_names@, i) && e == (StorageError::CorruptDirectory {
                        name: entry_names@[i],
                    }),
            },
    {
        let ghost nums = parsed_numbers(entry_names@);
        let mut part_nums: Vec<usize> = Vec::new();
        let mut counter: usize = 0;
        let mut i: usize = 0;
        while i < entry_names.len()
            invariant
                i <= entry_names@.len(),
                nums == parsed_numbers(entry_names@),
                forall|k: int| 0 <= k < i ==> is_partition_name(#[trigger] entry_names@[k]@),
                part_nums@ == nums.subrange(0, i as int),
                counter == next_after(part_nums@),
            decreases entry_names@.len() - i,
        {
            match parse_partition_number(entry_names[i].as_str()) {
                None => {
                    let name = entry_names[i].clone();
                    proof {
                        assert(first_bad_name(entry_names@, i as int));
                    }
                    return Err(StorageError::CorruptDirectory { name });
                },
                Some(v) => {
                    proof {
                        assert(part_nums@.push(v).drop_last() =~= part_nums@);
                    }
                    proof {
                        lemma_decimal_prefix(entry_names@[i as int]@, 0);
                        assert(isize::MAX < usize::MAX);
                    }
                    if v >= counter {
                        counter = v + 1;
                    }
                    part_nums.push(v);
                    proof {
                        assert(part_nums@ =~= nums.subrange(0, i + 1));
                    }
                },
            }
            i = i + 1;
        }
        proof {
            assert(part_nums@ =~= nums);
            assert(Set::new(|n: usize| part_nums@.contains(n)) =~= nums.to_set());
        }
        Ok(DiskSpaceManager { part_nums, db_dir, part_num_counter: counter })
    }

    /// Whether partition `part_num` is registered.
    pub fn is_registered(&self, part_num: usize) -> (r: bool)
        ensures
            r == self.registered().contains(part_num),
    {
        let mut i: usize = 0;
        while i < self.part_nums.len()
            invariant
                i <= self.part_nums@.len(),
                forall|k: int| 0 <= k < i ==> self.part_nums@[k] != part_num,
            decreases self.part_nums@.len() - i,
        {
            if self.part_nums[i] == part_num {
                return true;
            }
            i = i + 1;
        }
        false
    }

    fn register(&mut self, part_num: usize)
        ensures
            final(self).registered() == old(self).registered().insert(part_num),
            final(self).spec_next_part_num() == old(self).spec_next_part_num(),
            final(self).spec_db_dir() == old(self).spec_db_dir(),
    {
        if !self.is_registered(part_num) {
            self.part_nums.push(part_num);
            proof {
                assert(final(self).part_nums@.last() == part_num);
            }
        }
        proof {
            assert forall|n: usize| #[trigger] self.part_nums@.contains(n) == (old(self).part_nums@.contains(n) || n == part_num) by {
                if old(self).part_nums@.contains(n) {
                    let k = choose|k: int| 0 <= k < old(self).part_nums@.len() && old(self).part_nums@[k] == n;
                    assert(self.part_nums@[k] == n);
                }
                if n == part_num && !old(self).part_nums@.contains(n) {
                    assert(self.part_nums@[self.part_nums@.len() - 1] == n);
                }
            }
            assert(self.registered() =~= old(self).registered().insert(part_num));
        }
    }

    /// Hands out the next partition number and registers it. Numbers handed
    /// out this way increase by one from call to call.
    pub fn alloc_partition(&mut self) -> (r: usize)
        requires
            old(self).spec_next_part_num() < usize::MAX,
        ensures
            r == old(self).spec_next_part_num(),
            final(self).spec_next_part_num() == old(self).spec_next_part_num() + 1,
            final(self).registered() == old(self).registered().insert(r),
            final(self).spec_db_dir() == old(self).spec_db_dir(),
    {
        let part_num = self.part_num_counter;
        self.part_num_counter = part_num + 1;
        self.register(part_num);
        part_num
    }

    /// Registers partition `part_num`, chosen by the caller. The counter of
    /// `alloc_partition` is neither read nor moved.
    pub fn alloc_partition_with_num(&mut self, part_num: usize) -> (r: usize)
        ensures
            r == part_num,
            final(self).spec_next_part_num() == old(self).spec_next_part_num(),
            final(self).registered() == old(self).registered().insert(part_num),
            final(self).spec_db_dir() == old(self).spec_db_dir(),
    {
        self.register(part_num);
        part_num
    }

    /// The number that the next call of `alloc_partition` hands out.
    pub fn next_part_num(&self) -> (r: usize)
        ensures
            r == self.spec_next_part_num(),
    {
        self.part_num_counter
    }

    /// The storage directory.
    pub fn db_dir(&self) -> (r: &String)
        ensures
            r@ == self.spec_db_dir(),
    {
        &self.db_dir
    }
}

} // verus!
