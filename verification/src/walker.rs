//! The counting core: per-root accumulators, the one-level directory scanner,
//! and the merge rules that aggregate partial results.

use vstd::prelude::*;

use crate::ledger::{map_total, SizeLedger};
use crate::ledger::{lemma_map_total_nonneg, lemma_map_total_empty};
use crate::output::{display_width, left_justify, right_justify, fill_char, strong, title,
    spec_color_me, spec_display_width, spec_left_justify, spec_repeat, spec_right_justify, Color,
    Effect};
use crate::text::{digit_char, lemma_decimal_len_u64, push_char, push_digit, spec_decimal,
    u64_to_string};
use vstd::arithmetic::power2::{lemma2_to64, lemma2_to64_rest, lemma_pow2_adds, lemma_pow2_pos,
    lemma_pow2_strictly_increases, pow2};
use vstd::arithmetic::div_mod::{lemma_div_denominator, lemma_div_is_ordered,
    lemma_multiply_divide_lt, lemma_small_div_converse};
use vstd::arithmetic::mul::lemma_mul_inequality;

verus! {

/// How a directory entry is classified by the scanner.
#[derive(Clone, Copy, PartialEq, Eq, Structural, Debug)]
pub enum EntryKind {
    Symlink,
    Dir,
    File,
}

/// One directory entry as the scanner sees it: its bare name, its kind, and
/// (for regular files) the identity and size data needed for the ledger.
#[derive(Debug)]
pub struct Entry {
    /// The entry's own name, without the parent path.
    pub name: String,
    /// The classification of the entry.
    pub kind: EntryKind,
    /// The unique file identifier (inode); shared by hard links.
    pub ino: u64,
    /// The file's byte length.
    pub len: u64,
    /// The allocation block size of the file system holding the entry.
    pub blksize: u64,
}

/// Whether `a` names the same directory as `b` or an ancestor of it: equal, or
/// a proper prefix that ends at a path separator.
pub open spec fn spec_is_ancestor(a: Seq<char>, b: Seq<char>) -> bool {
    a == b || (a.len() < b.len() && b.take(a.len() as int) == a && (b[a.len() as int] == '/' || (
    a.len() > 0 && a.last() == '/')))
}

/// Decides whether the path `a` is `b` itself or an ancestor directory of `b`.
pub fn is_ancestor(a: &str, b: &str) -> (r: bool)
    ensures
        r == spec_is_ancestor(a@, b@),
{
    let la = a.unicode_len();
    let lb = b.unicode_len();
    if la > lb {
        return false;
    }
    let mut i: usize = 0;
    while i < la
        invariant
            i <= la,
            la == a@.len(),
            lb == b@.len(),
            la <= lb,
            forall|j: int| 0 <= j < i ==> a@[j] == b@[j],
        decreases la - i,
    {
        if a.get_char(i) != b.get_char(i) {
            proof {
                assert(a@[i as int] != b@[i as int]);
                assert(a@ != b@);
                assert(b@.take(la as int)[i as int] == b@[i as int]);
            }
            return false;
        }
        i = i + 1;
    }
    if la == lb {
        proof {
            assert(a@ =~= b@);
        }
        return true;
    }
    proof {
        assert(b@.take(la as int) =~= a@);
    }
    if b.get_char(la) == '/' {
        return true;
    }
    if la > 0 && a.get_char(la - 1) == '/' {
        proof {
            assert(a@.last() == a@[la - 1]);
        }
        return true;
    }
    false
}

/// The on-disk footprint of a file: its byte length rounded up to the nearest
/// whole allocation block.
pub open spec fn spec_alloc_size(len: int, blksize: int) -> int {
    if len % blksize == 0 {
        len
    } else {
        len + blksize - len % blksize
    }
}

/// Rounds `len` up to a whole number of allocation blocks.
pub fn alloc_size(len: u64, blksize: u64) -> (r: u64)
    requires
        blksize > 0,
        spec_alloc_size(len as int, blksize as int) <= u64::MAX,
    ensures
        r == spec_alloc_size(len as int, blksize as int),
{
    let rem = len % blksize;
    if rem == 0 {
        len
    } else {
        len + (blksize - rem)
    }
}

/// A per-directory-root accumulator: how many files and directories were seen
/// below `dirpath`, and, when size accounting is on, the deduplicated ledger
/// of their allocated sizes.
#[derive(Debug)]
pub struct Counter {
    /// The path this record summarizes.
    pub dirpath: String,
    /// Number of file and symlink entries counted.
    pub n_files: u64,
    /// Number of sub-directories counted.
    pub n_dirs: u64,
    /// The size ledger; present exactly when size accounting was requested.
    pub sz_map: Option<SizeLedger>,
}

impl Counter {
    /// Well-formedness: the ledger, when present, is well-formed.
    pub open spec fn wf(self) -> bool {
        match self.sz_map {
            Some(l) => l.wf(),
            None => true,
        }
    }

    /// Whether size accounting is on for this counter.
    pub open spec fn with_size(self) -> bool {
        self.sz_map is Some
    }

    /// The ledger contents, empty when size accounting is off.
    pub open spec fn ledger(self) -> Map<u64, u64> {
        match self.sz_map {
            Some(l) => l@,
            None => Map::empty(),
        }
    }

    /// The total deduplicated size this counter accounts for.
    pub open spec fn spec_size(self) -> int {
        map_total(self.ledger())
    }

    /// A well-formed counter never accounts a negative size.
    pub proof fn lemma_size_nonneg(&self)
        requires
            self.wf(),
        ensures
            self.spec_size() >= 0,
    {
        match self.sz_map {
            Some(l) => {
                l.lemma_dom_finite();
                lemma_map_total_nonneg(l@);
            },
            None => {
                lemma_map_total_empty();
            },
        }
    }

    /// Creates a zeroed counter for `dirpath`, with an empty ledger when
    /// `with_size` asks for size accounting.
    pub fn new(dirpath: &String, with_size: bool) -> (r: Self)
        ensures
            r.wf(),
            r.dirpath@ == dirpath@,
            r.n_files == 0,
            r.n_dirs == 0,
            r.with_size() == with_size,
            r.ledger() == Map::<u64, u64>::empty(),
    {
        Counter {
            dirpath: dirpath.clone(),
            n_files: 0,
            n_dirs: 0,
            sz_map: if with_size {
                Some(SizeLedger::new())
            } else {
                None
            },
        }
    }

    /// The path this counter summarizes.
    pub fn path(&self) -> (r: &str)
        ensures
            r@ == self.dirpath@,
    {
        self.dirpath.as_str()
    }

    /// The total deduplicated size of the files accounted for, zero when size
    /// accounting is off.
    pub fn size(&self) -> (r: u64)
        requires
            self.wf(),
            self.spec_size() <= u64::MAX,
        ensures
            r == self.spec_size(),
    {
        match &self.sz_map {
            Some(l) => {
                proof {
                    l.lemma_dom_finite();
                    lemma_map_total_nonneg(l@);
                }
                l.total() as u64
            },
            None => {
                proof {
                    lemma_map_total_empty();
                }
                0
            },
        }
    }

    /// Merges `other` into `self` when `other` summarizes the same directory
    /// or a descendant: counts are added, and the ledgers are united with
    /// entries already present keeping their recorded size. Counters for
    /// unrelated paths are left untouched.
    pub fn merge(&mut self, other: &Counter)
        requires
            old(self).wf(),
            other.wf(),
            spec_is_ancestor(old(self).dirpath@, other.dirpath@) ==> {
                &&& old(self).n_files + other.n_files <= u64::MAX
                &&& old(self).n_dirs + other.n_dirs <= u64::MAX
                &&& (old(self).with_size() ==> other.with_size())
            },
        ensures
            final(self).wf(),
            final(self).dirpath == old(self).dirpath,
            final(self).with_size() == old(self).with_size(),
            spec_is_ancestor(old(self).dirpath@, other.dirpath@) ==> {
                &&& final(self).n_files == old(self).n_files + other.n_files
                &&& final(self).n_dirs == old(self).n_dirs + other.n_dirs
                &&& final(self).ledger() == if old(self).with_size() {
                    other.ledger().union_prefer_right(old(self).ledger())
                } else {
                    old(self).ledger()
                }
            },
            !spec_is_ancestor(old(self).dirpath@, other.dirpath@) ==> *final(self) == *old(self),
    {
        if is_ancestor(self.dirpath.as_str(), other.dirpath.as_str()) {
            self.n_files = self.n_files + other.n_files;
            self.n_dirs = self.n_dirs + other.n_dirs;
            match &mut self.sz_map {
                Some(l) => {
                    let om = other.sz_map.as_ref().unwrap();
                    l.absorb(om);
                },
                None => {},
            }
        }
    }

    /// Renders `size` with a binary-prefix unit, as the scaled value would
    /// print from a double: unscaled below 1024, then `K`/`M`/`G`/`T`/`P`/`E`
    /// at each 1024-fold step, with one decimal digit unless the fraction is
    /// negligible.
    #[verifier::rlimit(100)]
    pub fn add_unit_to_size(size: u64) -> (r: String)
        ensures
            r@ == spec_readable_size(size as int),
    {
        proof {
            lemma2_to64();
            vstd::arithmetic::power2::lemma2_to64_rest();
        }
        let e = bit_length(size);
        // Reduce to 53 significant bits, to the nearest value, ties to even.
        let s2: u128 = if e <= 53 {
            proof {
                if e < 53 {
                    lemma_pow2_strictly_increases(e as nat, 53);
                }
                assert(round_to_53(size as nat) == size as nat);
            }
            size as u128
        } else {
            let sh = e - 53;
            let p = pow2_small(sh);
            let base = size / p;
            let low = size % p;
            let half = p / 2;
            proof {
                lemma_pow2_pos(sh as nat);
                assert((size as int) < (pow2(sh as nat) as int) * (pow2(53) as int)) by {
                    lemma_pow2_adds(sh as nat, 53);
                }
                lemma_multiply_divide_lt(size as int, pow2(sh as nat) as int, pow2(53) as int);
                assert(base < pow2(53));
                assert(pow2(sh as nat) <= pow2(11)) by {
                    if sh < 11 {
                        lemma_pow2_strictly_increases(sh as nat, 11);
                    }
                }
                assert(((base + 1) as int) * (p as int) <= (pow2(53) as int) * (pow2(11) as int)) by {
                    lemma_mul_inequality(base as int + 1, pow2(53) as int, p as int);
                    lemma_mul_inequality(p as int, pow2(11) as int, pow2(53) as int);
                }
                assert((pow2(53) as int) * (pow2(11) as int) == pow2(64) as int) by {
                    lemma_pow2_adds(53, 11);
                }
                assert((base as int) * (p as int) <= ((base + 1) as int) * (p as int)) by {
                    lemma_mul_inequality(base as int, base as int + 1, p as int);
                }
                // `p` is even, so comparing against its half is comparing
                // doubled remainders.
                assert(p == 2 * half) by {
                    lemma_pow2_adds(1, (sh - 1) as nat);
                    lemma_pow2_pos((sh - 1) as nat);
                }
                assert(size >= pow2(53));
            }
            let rounded: u64 = if low > half || (low == half && base % 2 == 1) {
                base + 1
            } else {
                base
            };
            proof {
                assert(round_to_53(size as nat) == rounded as nat * pow2(sh as nat));
            }
            (rounded as u128) * (p as u128)
        };
        proof {
            assert(s2 as nat == round_to_53(size as nat));
            assert(s2 <= pow2(64)) by {
                if size < pow2(53) {
                    lemma_pow2_strictly_increases(53, 64);
                }
            }
        }
        // Pick the unit: the largest power of 1024 that leaves the value
        // below 1024, capped at the last unit.
        let (u, d): (u64, u128) = if s2 < 1024 {
            (0, 1)
        } else if s2 < 1048576 {
            (1, 1024)
        } else if s2 < 1073741824 {
            (2, 1048576)
        } else if s2 < 1099511627776 {
            (3, 1073741824)
        } else if s2 < 1125899906842624 {
            (4, 1099511627776)
        } else if s2 < 1152921504606846976 {
            (5, 1125899906842624)
        } else {
            (6, 1152921504606846976)
        };
        let q = s2 / d;
        let low = s2 % d;
        proof {
            assert(q <= u64::MAX) by {
                if u < 6 {
                    lemma_multiply_divide_lt(s2 as int, d as int, 1024);
                } else {
                    lemma_div_is_ordered(s2 as int, pow2(64) as int, d as int);
                }
            }
        }
        if 20 * low < d {
            // The fraction is negligible: print the whole part alone.
            let mut out = u64_to_string(q as u64);
            push_char(&mut out, unit_letter(u));
            proof {
                assert(out@ =~= spec_readable_size(size as int));
            }
            out
        } else {
            // One decimal digit, rounding to nearest, ties to even.
            let n10 = s2 * 10;
            let q10 = n10 / d;
            let r10 = n10 % d;
            proof {
                assert(q10 <= 10 * pow2(64) as int / d as int) by {
                    lemma_div_is_ordered(n10 as int, 10 * pow2(64) as int, d as int);
                }
                assert(q10 < u64::MAX) by {
                    if u < 6 {
                        lemma_multiply_divide_lt(n10 as int, d as int, 10240);
                    } else {
                        lemma_div_is_ordered(n10 as int, 10 * pow2(64) as int, d as int);
                    }
                }
            }
            let t: u64 = if 2 * r10 > d || (2 * r10 == d && q10 % 2 == 1) {
                (q10 as u64) + 1
            } else {
                q10 as u64
            };
            let mut out = u64_to_string(t / 10);
            push_char(&mut out, '.');
            push_digit(&mut out, t % 10);
            push_char(&mut out, unit_letter(u));
            proof {
                assert(out@ =~= spec_readable_size(size as int));
            }
            out
        }
    }

    /// Renders this counter's total size with a binary-prefix unit.
    pub fn readable_size(&self) -> (r: String)
        requires
            self.wf(),
            self.spec_size() <= u64::MAX,
        ensures
            r@ == spec_readable_size(self.spec_size()),
    {
        Counter::add_unit_to_size(self.size())
    }

    /// The display lengths of this counter's four report fields.
    pub fn lengths(&self) -> (r: (usize, usize, usize, usize))
        requires
            self.wf(),
            self.spec_size() <= u64::MAX,
            2 * self.dirpath@.len() <= usize::MAX,
        ensures
            (r.0 as int, r.1 as int, r.2 as int, r.3 as int) == spec_lengths_of(*self),
    {
        let w = display_width(&self.dirpath);
        let f = u64_to_string(self.n_files);
        let d = u64_to_string(self.n_dirs);
        let s = self.readable_size();
        (w, f.as_str().unicode_len(), d.as_str().unicode_len(), s.as_str().unicode_len())
    }

    /// Joins up to four already-rendered fields into one report line: the
    /// first left-justified, the rest right-justified, two spaces between
    /// columns; the fourth column only appears with size accounting.
    pub fn join_fields(fields: &Vec<String>, with_size: bool, lens: (usize, usize, usize, usize))
        -> (r: String)
        requires
            fields@.len() >= 3,
            with_size ==> fields@.len() >= 4,
            forall|i: int| 0 <= i < fields@.len() ==> 2 * (#[trigger] fields@[i])@.len()
                <= usize::MAX,
        ensures
            r@ == spec_join_fields(
                fields@.map_values(|s: String| s@),
                with_size,
                (lens.0 as int, lens.1 as int, lens.2 as int, lens.3 as int),
            ),
    {
        proof {
            reveal_strlit("  ");
        }
        let mut out = left_justify(fields[0].as_str(), lens.0);
        out.append("  ");
        let f1 = right_justify(fields[1].as_str(), lens.1);
        out.append(f1.as_str());
        out.append("  ");
        let f2 = right_justify(fields[2].as_str(), lens.2);
        out.append(f2.as_str());
        if with_size {
            out.append("  ");
            let f3 = right_justify(fields[3].as_str(), lens.3);
            out.append(f3.as_str());
        }
        proof {
            assert("  "@ =~= spec_sep());
            assert(out@ =~= spec_join_fields(
                fields@.map_values(|s: String| s@),
                with_size,
                (lens.0 as int, lens.1 as int, lens.2 as int, lens.3 as int),
            ));
        }
        out
    }

    /// This counter's report line: path, file count, directory count and —
    /// when size accounting is on — the readable size, aligned to `lens`.
    pub fn to_string(&self, lens: (usize, usize, usize, usize)) -> (r: String)
        requires
            self.wf(),
            self.spec_size() <= u64::MAX,
            2 * self.dirpath@.len() <= usize::MAX,
        ensures
            r@ == spec_counter_row(
                *self,
                (lens.0 as int, lens.1 as int, lens.2 as int, lens.3 as int),
            ),
    {
        let mut fields: Vec<String> = Vec::new();
        fields.push(self.dirpath.clone());
        fields.push(u64_to_string(self.n_files));
        fields.push(u64_to_string(self.n_dirs));
        fields.push(self.readable_size());
        proof {
            lemma_decimal_len_u64(self.n_files as int);
            lemma_decimal_len_u64(self.n_dirs as int);
            self.lemma_size_nonneg();
            lemma_readable_size_len(self.spec_size());
            assert(fields@.map_values(|s: String| s@) =~= seq![
                self.dirpath@,
                spec_decimal(self.n_files as int),
                spec_decimal(self.n_dirs as int),
                spec_readable_size(self.spec_size()),
            ]);
        }
        let with_size = self.sz_map.is_some();
        Counter::join_fields(&fields, with_size, lens)
    }

    /// The header line of the report, in the title style.
    pub fn make_head_line(with_size: bool, lens: (usize, usize, usize, usize)) -> (r: String)
        ensures
            r@ == spec_color_me(
                spec_join_fields(
                    seq!["Path"@, "Files"@, "Dirs"@, "Size"@],
                    with_size,
                    (lens.0 as int, lens.1 as int, lens.2 as int, lens.3 as int),
                ),
                Color::BrightGreen,
                Effect::Underline,
            ),
    {
        proof {
            reveal_strlit("Path");
            reveal_strlit("Files");
            reveal_strlit("Dirs");
            reveal_strlit("Size");
        }
        let mut fields: Vec<String> = Vec::new();
        fields.push("Path".to_owned());
        fields.push("Files".to_owned());
        fields.push("Dirs".to_owned());
        fields.push("Size".to_owned());
        proof {
            assert(fields@.map_values(|s: String| s@) =~= seq![
                "Path"@,
                "Files"@,
                "Dirs"@,
                "Size"@,
            ]);
        }
        let joined = Counter::join_fields(&fields, with_size, lens);
        title(joined.as_str())
    }

    /// The closing lines of a multi-root report: a horizontal rule over the
    /// emphasised totals line.
    pub fn make_total_line(
        total: (String, String, String, String),
        with_size: bool,
        lens: (usize, usize, usize, usize),
    ) -> (r: String)
        requires
            2 * total.0@.len() <= usize::MAX,
            2 * total.1@.len() <= usize::MAX,
            2 * total.2@.len() <= usize::MAX,
            2 * total.3@.len() <= usize::MAX,
        ensures
            r@ == spec_total_line(
                seq![total.0@, total.1@, total.2@, total.3@],
                with_size,
                (lens.0 as int, lens.1 as int, lens.2 as int, lens.3 as int),
            ),
    {
        let mut fields: Vec<String> = Vec::new();
        fields.push(total.0);
        fields.push(total.1);
        fields.push(total.2);
        fields.push(total.3);
        proof {
            assert(fields@.map_values(|s: String| s@) =~= seq![
                fields@[0]@,
                fields@[1]@,
                fields@[2]@,
                fields@[3]@,
            ]);
        }
        let total_line = Counter::join_fields(&fields, with_size, lens);
        let width = total_line.as_str().unicode_len();
        let mut out = fill_char('\u{2500}', width);
        push_char(&mut out, '\n');
        let emphasised = strong(total_line.as_str());
        out.append(emphasised.as_str());
        proof {
            assert(out@ =~= spec_total_line(
                seq![fields@[0]@, fields@[1]@, fields@[2]@, fields@[3]@],
                with_size,
                (lens.0 as int, lens.1 as int, lens.2 as int, lens.3 as int),
            ));
        }
        out
    }

    /// Sums counts and sizes over all counters and renders them as the
    /// fields of the totals row.
    pub fn summarize(counters: &Vec<Counter>) -> (r: (String, String, String, String))
        requires
            forall|i: int| 0 <= i < counters@.len() ==> (#[trigger] counters@[i]).wf(),
            sum_files(counters@) <= u64::MAX,
            sum_dirs(counters@) <= u64::MAX,
            sum_sizes(counters@) <= u64::MAX,
        ensures
            r.0@ == "Total"@,
            r.1@ == spec_decimal(sum_files(counters@)),
            r.2@ == spec_decimal(sum_dirs(counters@)),
            r.3@ == spec_readable_size(sum_sizes(counters@)),
    {
        let n = counters.len();
        let mut files: u64 = 0;
        let mut dirs: u64 = 0;
        let mut sizes: u64 = 0;
        let mut i: usize = 0;
        proof {
            assert(counters@.take(0) =~= Seq::<Counter>::empty());
        }
        while i < n
            invariant
                i <= n,
                n == counters@.len(),
                forall|j: int| 0 <= j < counters@.len() ==> (#[trigger] counters@[j]).wf(),
                sum_files(counters@) <= u64::MAX,
                sum_dirs(counters@) <= u64::MAX,
                sum_sizes(counters@) <= u64::MAX,
                files == sum_files(counters@.take(i as int)),
                dirs == sum_dirs(counters@.take(i as int)),
                sizes == sum_sizes(counters@.take(i as int)),
            decreases n - i,
        {
            proof {
                lemma_sums_prefix(counters@, i as int);
                lemma_sums_prefix(counters@, i as int + 1);
                assert(counters@.take(i as int + 1).drop_last() =~= counters@.take(i as int));
                assert(counters@.take(i as int + 1).last() == counters@[i as int]);
                counters@[i as int].lemma_size_nonneg();
            }
            let c = &counters[i];
            files = files + c.n_files;
            dirs = dirs + c.n_dirs;
            let sz = c.size();
            sizes = sizes + sz;
            i = i + 1;
        }
        proof {
            assert(counters@.take(n as int) =~= counters@);
        }
        (
            "Total".to_owned(),
            u64_to_string(files),
            u64_to_string(dirs),
            Counter::add_unit_to_size(sizes),
        )
    }

    /// The element-wise maxima of a list of field lengths.
    pub fn max_lengths(lens: Vec<(usize, usize, usize, usize)>) -> (r: (
        usize,
        usize,
        usize,
        usize,
    ))
        ensures
            lens_as_int(r) == spec_max_lengths(lens@.map_values(|t: (usize, usize, usize, usize)|
                lens_as_int(t))),
    {
        let mut max_lens: (usize, usize, usize, usize) = (0, 0, 0, 0);
        let n = lens.len();
        let mut i: usize = 0;
        let ghost cast = |t: (usize, usize, usize, usize)| lens_as_int(t);
        proof {
            assert(lens@.take(0).map_values(cast) =~= Seq::<(int, int, int, int)>::empty());
        }
        while i < n
            invariant
                i <= n,
                n == lens@.len(),
                lens_as_int(max_lens) == spec_max_lengths(lens@.take(i as int).map_values(cast)),
                cast == (|t: (usize, usize, usize, usize)| lens_as_int(t)),
            decreases n - i,
        {
            proof {
                assert(lens@.take(i as int + 1).map_values(cast).drop_last() =~= lens@.take(
                    i as int,
                ).map_values(cast));
                assert(lens@.take(i as int + 1).map_values(cast).last() == cast(
                    lens@[i as int],
                ));
            }
            let l = lens[i];
            let m0 = if l.0 > max_lens.0 { l.0 } else { max_lens.0 };
            let m1 = if l.1 > max_lens.1 { l.1 } else { max_lens.1 };
            let m2 = if l.2 > max_lens.2 { l.2 } else { max_lens.2 };
            let m3 = if l.3 > max_lens.3 { l.3 } else { max_lens.3 };
            max_lens = (m0, m1, m2, m3);
            i = i + 1;
        }
        proof {
            assert(lens@.take(n as int).map_values(cast) =~= lens@.map_values(cast));
        }
        max_lens
    }

    /// The whole report for a set of root counters: a header, one aligned row
    /// per root, and — when there is more than one root — a totals block.
    pub fn render(counters: &Vec<Counter>, with_size: bool) -> (r: String)
        requires
            renderable(counters@),
        ensures
            r@ == spec_render(counters@, with_size),
    {
        let ghost s = counters@;
        let n = counters.len();
        // The totals row is only shown over more than one root.
        let total: (String, String, String, String) = if n > 1 {
            Counter::summarize(counters)
        } else {
            (String::new(), String::new(), String::new(), String::new())
        };
        proof {
            assert(spec_total_fields(s) =~= seq![total.0@, total.1@, total.2@, total.3@]);
        }
        // Column widths: the maxima over the header, the totals row, and
        // every counter row.
        let title_lens: (usize, usize, usize, usize) = (4, 5, 4, 4);
        let total_lens = (
            total.0.as_str().unicode_len(),
            total.1.as_str().unicode_len(),
            total.2.as_str().unicode_len(),
            total.3.as_str().unicode_len(),
        );
        let mut lens: Vec<(usize, usize, usize, usize)> = Vec::new();
        let mut i: usize = 0;
        while i < n
            invariant
                i <= n,
                n == s.len(),
                s == counters@,
                renderable(s),
                lens@.len() == i,
                forall|j: int| 0 <= j < i ==> lens_as_int(#[trigger] lens@[j]) == spec_lengths_of(
                    s[j],
                ),
            decreases n - i,
        {
            let row_lens = counters[i].lengths();
            lens.push(row_lens);
            i = i + 1;
        }
        lens.push(total_lens);
        lens.push(title_lens);
        let ghost all_lens = lens@;
        let max_lens = Counter::max_lengths(lens);
        proof {
            let tf = spec_total_fields(s);
            assert(all_lens.map_values(|t: (usize, usize, usize, usize)| lens_as_int(t)) =~= s
                .map_values(|c: Counter| spec_lengths_of(c)).push(
                (tf[0].len() as int, tf[1].len() as int, tf[2].len() as int, tf[3].len() as int),
            ).push((4, 5, 4, 4)));
            assert(lens_as_int(max_lens) == spec_render_lens(s));
        }
        // Compose the lines: header, one row per counter, totals block.
        let mut out = Counter::make_head_line(with_size, max_lens);
        let ghost maxl = lens_as_int(max_lens);
        let ghost head = out@;
        let mut i: usize = 0;
        proof {
            assert(out@ =~= head + spec_row_lines(s.take(0), maxl));
        }
        while i < n
            invariant
                i <= n,
                n == s.len(),
                s == counters@,
                renderable(s),
                lens_as_int(max_lens) == maxl,
                out@ == head + spec_row_lines(s.take(i as int), maxl),
            decreases n - i,
        {
            proof {
                assert(s.take(i as int + 1).drop_last() =~= s.take(i as int));
                assert(s.take(i as int + 1).last() == s[i as int]);
            }
            push_char(&mut out, '\n');
            let row = counters[i].to_string(max_lens);
            out.append(row.as_str());
            proof {
                assert(out@ =~= head + spec_row_lines(s.take(i as int + 1), maxl));
            }
            i = i + 1;
        }
        proof {
            assert(s.take(n as int) =~= s);
        }
        if n > 1 {
            proof {
                lemma_sums_prefix(s, n as int);
                assert(s.take(n as int) =~= s);
                lemma_decimal_len_u64(sum_files(s));
                lemma_decimal_len_u64(sum_dirs(s));
                lemma_readable_size_len(sum_sizes(s));
                reveal_strlit("Total");
            }
            push_char(&mut out, '\n');
            let total_line = Counter::make_total_line(total, with_size, max_lens);
            out.append(total_line.as_str());
        }
        out
    }
}

/// The number of binary digits of `n`: zero for zero, and the unique `e` with
/// `pow2(e - 1) <= n < pow2(e)` otherwise.
pub open spec fn bit_len(n: nat) -> nat
    decreases n,
{
    if n == 0 {
        0
    } else {
        bit_len(n / 2) + 1
    }
}

/// The characterising bounds determine the bit length.
pub proof fn lemma_bit_len_char(n: nat, e: nat)
    requires
        n < pow2(e),
        e > 0 ==> n >= pow2((e - 1) as nat),
    ensures
        bit_len(n) == e,
    decreases e,
{
    lemma2_to64();
    assert(bit_len(0) == 0);
    if e == 0 {
        assert(n == 0);
    } else if e == 1 {
        assert(n == 1);
        assert(bit_len(1) == bit_len(0) + 1);
    } else {
        lemma_pow2_pos((e - 1) as nat);
        lemma_pow2_pos((e - 2) as nat);
        assert(pow2(e) == 2 * pow2((e - 1) as nat)) by {
            lemma_pow2_adds(1, (e - 1) as nat);
        }
        assert(pow2((e - 1) as nat) == 2 * pow2((e - 2) as nat)) by {
            lemma_pow2_adds(1, (e - 2) as nat);
        }
        assert(n / 2 < pow2((e - 1) as nat));
        assert(n / 2 >= pow2((e - 2) as nat));
        lemma_bit_len_char(n / 2, (e - 1) as nat);
    }
}

/// `n` rounded to 53 significant binary digits, to the nearest such value and
/// to the even one on a tie: what storing `n` in a double-precision float
/// keeps of it.
pub open spec fn round_to_53(n: nat) -> nat {
    if n < pow2(53) {
        n
    } else {
        let p = pow2((bit_len(n) - 53) as nat);
        let base = n / p;
        let low = n % p;
        if 2 * low > p || (2 * low == p && base % 2 == 1) {
            (base + 1) * p
        } else {
            base * p
        }
    }
}

/// The defining bounds of `bit_len`.
pub proof fn lemma_bit_len_bounds(n: nat)
    ensures
        n < pow2(bit_len(n)),
        n > 0 ==> bit_len(n) > 0 && n >= pow2((bit_len(n) - 1) as nat),
    decreases n,
{
    lemma2_to64();
    if n == 0 {
    } else {
        let b = bit_len(n);
        lemma_bit_len_bounds(n / 2);
        assert(pow2(b) == 2 * pow2((b - 1) as nat)) by {
            lemma_pow2_adds(1, (b - 1) as nat);
        }
        if n / 2 == 0 {
            assert(n == 1);
        } else {
            assert(pow2((b - 1) as nat) == 2 * pow2((b - 2) as nat)) by {
                lemma_pow2_adds(1, (b - 2) as nat);
            }
        }
    }
}

/// Rounding a 64-bit value to 53 significant digits never exceeds `pow2(64)`.
pub proof fn lemma_round_to_53_bound(n: nat)
    requires
        n <= u64::MAX,
    ensures
        round_to_53(n) <= pow2(64),
{
    lemma2_to64();
    vstd::arithmetic::power2::lemma2_to64_rest();
    if n < pow2(53) {
        lemma_pow2_strictly_increases(53, 64);
    } else {
        let e = bit_len(n);
        lemma_bit_len_bounds(n);
        assert(e <= 64) by {
            if e > 64 {
                if e - 1 > 64 {
                    lemma_pow2_strictly_increases(64, (e - 1) as nat);
                }
            }
        }
        assert(e > 53) by {
            if e <= 53 {
                if e < 53 {
                    lemma_pow2_strictly_increases(e, 53);
                }
            }
        }
        let p = pow2((e - 53) as nat);
        let base = n / p;
        lemma_pow2_pos((e - 53) as nat);
        assert((n as int) < (p as int) * (pow2(53) as int)) by {
            lemma_pow2_adds((e - 53) as nat, 53);
        }
        lemma_multiply_divide_lt(n as int, p as int, pow2(53) as int);
        assert(((base + 1) as int) * (p as int) <= (pow2(53) as int) * (p as int)) by {
            lemma_mul_inequality(base as int + 1, pow2(53) as int, p as int);
        }
        assert((base as int) * (p as int) <= ((base + 1) as int) * (p as int)) by {
            lemma_mul_inequality(base as int, base as int + 1, p as int);
        }
        assert((pow2(53) as int) * (p as int) <= pow2(64) as int) by {
            lemma_pow2_adds(53, (e - 53) as nat);
            if e < 64 {
                lemma_pow2_strictly_increases(e, 64);
            }
        }
    }
}

/// A readable size string is short: at most 23 characters.
pub proof fn lemma_readable_size_len(size: int)
    requires
        0 <= size <= u64::MAX,
    ensures
        2 <= spec_readable_size(size).len() <= 23,
{
    lemma2_to64();
    vstd::arithmetic::power2::lemma2_to64_rest();
    lemma_round_to_53_bound(size as nat);
    let v = round_to_53(size as nat) as int;
    assert(v == round_to_53(size as nat));
    let u = spec_unit_index(v);
    let d = spec_unit_divisor(u);
    let q = v / d;
    let low = v % d;
    assert(q <= u64::MAX) by {
        if u == 0 {
        } else {
            vstd::arithmetic::div_mod::lemma_div_is_ordered(v, pow2(64) as int, d);
        }
    }
    if 20 * low < d {
        crate::text::lemma_decimal_len_u64(q);
    } else {
        let q10 = (10 * v) / d;
        assert(d >= 1024);
        assert(q10 <= u64::MAX) by {
            vstd::arithmetic::div_mod::lemma_div_is_ordered(10 * v, 10 * pow2(64) as int, d);
        }
        let t = if 2 * ((10 * v) % d) > d || (2 * ((10 * v) % d) == d && q10 % 2 == 1) {
            q10 + 1
        } else {
            q10
        };
        assert(t / 10 <= u64::MAX) by {
            vstd::arithmetic::div_mod::lemma_div_is_ordered(t, u64::MAX as int * 10, 10);
        }
        crate::text::lemma_decimal_len_u64(t / 10);
    }
}

/// The scale index of a size: how many times 1024 divides it down into
/// `[0, 1024)`, capped at the last unit.
pub open spec fn spec_unit_index(v: int) -> int {
    if v < 1024 {
        0
    } else if v < 1048576 {
        1
    } else if v < 1073741824 {
        2
    } else if v < 1099511627776 {
        3
    } else if v < 1125899906842624 {
        4
    } else if v < 1152921504606846976 {
        5
    } else {
        6
    }
}

/// The divisor that scales a size down to its unit: `1024` to the power of
/// the unit index.
pub open spec fn spec_unit_divisor(u: int) -> int {
    if u == 0 {
        1
    } else if u == 1 {
        1024
    } else if u == 2 {
        1048576
    } else if u == 3 {
        1073741824
    } else if u == 4 {
        1099511627776
    } else if u == 5 {
        1125899906842624
    } else {
        1152921504606846976
    }
}

/// The unit letter for a scale index.
pub open spec fn spec_unit_char(u: int) -> char {
    if u == 0 {
        'B'
    } else if u == 1 {
        'K'
    } else if u == 2 {
        'M'
    } else if u == 3 {
        'G'
    } else if u == 4 {
        'T'
    } else if u == 5 {
        'P'
    } else {
        'E'
    }
}

/// The human-readable rendering of a byte count: the count is first reduced
/// to double precision, scaled by the largest unit that leaves it below 1024,
/// and printed with one decimal digit — or none when the fraction is below
/// 0.05 — rounding to nearest with ties to even, as fixed-point printing of
/// the scaled double does.
pub open spec fn spec_readable_size(size: int) -> Seq<char> {
    let v = round_to_53(size as nat) as int;
    let u = spec_unit_index(v);
    let d = spec_unit_divisor(u);
    let q = v / d;
    let low = v % d;
    if 20 * low < d {
        spec_decimal(q).push(spec_unit_char(u))
    } else {
        let q10 = (10 * v) / d;
        let r10 = (10 * v) % d;
        let t = if 2 * r10 > d || (2 * r10 == d && q10 % 2 == 1) {
            q10 + 1
        } else {
            q10
        };
        spec_decimal(t / 10) + seq!['.', digit_char(t % 10), spec_unit_char(u)]
    }
}

/// The two-space column separator of the report.
pub open spec fn spec_sep() -> Seq<char> {
    seq![' ', ' ']
}

/// The report line made of up to four fields: the first left-justified, the
/// rest right-justified, separated by two spaces; the fourth only with size
/// accounting.
pub open spec fn spec_join_fields(
    fields: Seq<Seq<char>>,
    with_size: bool,
    lens: (int, int, int, int),
) -> Seq<char> {
    let f0 = spec_left_justify(fields[0], lens.0);
    let f1 = spec_right_justify(fields[1], lens.1);
    let f2 = spec_right_justify(fields[2], lens.2);
    if with_size {
        f0 + spec_sep() + f1 + spec_sep() + f2 + spec_sep() + spec_right_justify(
            fields[3],
            lens.3,
        )
    } else {
        f0 + spec_sep() + f1 + spec_sep() + f2
    }
}

/// The display lengths of a counter's four report fields.
pub open spec fn spec_lengths_of(c: Counter) -> (int, int, int, int) {
    (
        spec_display_width(c.dirpath@),
        spec_decimal(c.n_files as int).len() as int,
        spec_decimal(c.n_dirs as int).len() as int,
        spec_readable_size(c.spec_size()).len() as int,
    )
}

/// A counter's own report line.
pub open spec fn spec_counter_row(c: Counter, lens: (int, int, int, int)) -> Seq<char> {
    spec_join_fields(
        seq![
            c.dirpath@,
            spec_decimal(c.n_files as int),
            spec_decimal(c.n_dirs as int),
            spec_readable_size(c.spec_size()),
        ],
        c.with_size(),
        lens,
    )
}

/// The closing lines of a multi-root report: a horizontal rule as wide as the
/// totals line, then that line emphasised.
pub open spec fn spec_total_line(
    fields: Seq<Seq<char>>,
    with_size: bool,
    lens: (int, int, int, int),
) -> Seq<char> {
    let line = spec_join_fields(fields, with_size, lens);
    spec_repeat('\u{2500}', line.len() as int) + seq!['\n'] + spec_color_me(
        line,
        Color::Default,
        Effect::Bold,
    )
}

/// The total file count over a set of counters.
pub open spec fn sum_files(s: Seq<Counter>) -> int
    decreases s.len(),
{
    if s.len() == 0 {
        0
    } else {
        sum_files(s.drop_last()) + s.last().n_files
    }
}

/// The total directory count over a set of counters.
pub open spec fn sum_dirs(s: Seq<Counter>) -> int
    decreases s.len(),
{
    if s.len() == 0 {
        0
    } else {
        sum_dirs(s.drop_last()) + s.last().n_dirs
    }
}

/// The total size over a set of counters.
pub open spec fn sum_sizes(s: Seq<Counter>) -> int
    decreases s.len(),
{
    if s.len() == 0 {
        0
    } else {
        sum_sizes(s.drop_last()) + s.last().spec_size()
    }
}

/// A prefix never sums to more than the whole, the sums being of non-negative
/// terms.
pub proof fn lemma_sums_prefix(s: Seq<Counter>, i: int)
    requires
        0 <= i <= s.len(),
        forall|j: int| 0 <= j < s.len() ==> (#[trigger] s[j]).wf(),
    ensures
        0 <= sum_files(s.take(i)) <= sum_files(s),
        0 <= sum_dirs(s.take(i)) <= sum_dirs(s),
        0 <= sum_sizes(s.take(i)) <= sum_sizes(s),
    decreases s.len(),
{
    if s.len() > 0 {
        let sd = s.drop_last();
        s.last().lemma_size_nonneg();
        assert(forall|j: int| 0 <= j < sd.len() ==> #[trigger] sd[j] == s[j]);
        if i == s.len() {
            assert(s.take(i) =~= s);
            lemma_sums_prefix(sd, sd.len() as int);
            assert(sd.take(sd.len() as int) =~= sd);
        } else {
            lemma_sums_prefix(sd, i);
            assert(s.take(i) =~= sd.take(i));
        }
    }
}

/// The element-wise maxima of a list of field lengths, starting from zero.
pub open spec fn spec_max_lengths(s: Seq<(int, int, int, int)>) -> (int, int, int, int)
    decreases s.len(),
{
    if s.len() == 0 {
        (0, 0, 0, 0)
    } else {
        let rest = spec_max_lengths(s.drop_last());
        let l = s.last();
        (
            if l.0 > rest.0 {
                l.0
            } else {
                rest.0
            },
            if l.1 > rest.1 {
                l.1
            } else {
                rest.1
            },
            if l.2 > rest.2 {
                l.2
            } else {
                rest.2
            },
            if l.3 > rest.3 {
                l.3
            } else {
                rest.3
            },
        )
    }
}

/// The field lengths as mathematical integers.
pub open spec fn lens_as_int(t: (usize, usize, usize, usize)) -> (int, int, int, int) {
    (t.0 as int, t.1 as int, t.2 as int, t.3 as int)
}

/// The totals row of a report over more than one root; empty fields
/// otherwise.
pub open spec fn spec_total_fields(s: Seq<Counter>) -> Seq<Seq<char>> {
    if s.len() > 1 {
        seq![
            "Total"@,
            spec_decimal(sum_files(s)),
            spec_decimal(sum_dirs(s)),
            spec_readable_size(sum_sizes(s)),
        ]
    } else {
        seq![Seq::empty(), Seq::empty(), Seq::empty(), Seq::empty()]
    }
}

/// The column widths of the report: the maxima over every counter row, the
/// totals row, and the header.
pub open spec fn spec_render_lens(s: Seq<Counter>) -> (int, int, int, int) {
    let tf = spec_total_fields(s);
    spec_max_lengths(
        s.map_values(|c: Counter| spec_lengths_of(c)).push(
            (tf[0].len() as int, tf[1].len() as int, tf[2].len() as int, tf[3].len() as int),
        ).push((4, 5, 4, 4)),
    )
}

/// The counter rows of the report, each on its own line.
pub open spec fn spec_row_lines(s: Seq<Counter>, maxl: (int, int, int, int)) -> Seq<char>
    decreases s.len(),
{
    if s.len() == 0 {
        Seq::empty()
    } else {
        spec_row_lines(s.drop_last(), maxl) + seq!['\n'] + spec_counter_row(s.last(), maxl)
    }
}

/// The whole report: header, one row per counter, and — over more than one
/// root — the totals block.
pub open spec fn spec_render(s: Seq<Counter>, with_size: bool) -> Seq<char> {
    let maxl = spec_render_lens(s);
    let head = spec_color_me(
        spec_join_fields(seq!["Path"@, "Files"@, "Dirs"@, "Size"@], with_size, maxl),
        Color::BrightGreen,
        Effect::Underline,
    );
    let body = head + spec_row_lines(s, maxl);
    if s.len() > 1 {
        body + seq!['\n'] + spec_total_line(spec_total_fields(s), with_size, maxl)
    } else {
        body
    }
}

/// What rendering asks of its input: well-formed counters whose counts, sizes
/// and path widths fit the machine words the report is built with.
pub open spec fn renderable(s: Seq<Counter>) -> bool {
    &&& forall|i: int| 0 <= i < s.len() ==> (#[trigger] s[i]).wf()
    &&& forall|i: int| 0 <= i < s.len() ==> (#[trigger] s[i]).spec_size() <= u64::MAX
    &&& forall|i: int| 0 <= i < s.len() ==> 2 * (#[trigger] s[i]).dirpath@.len() <= usize::MAX
    &&& sum_files(s) <= u64::MAX
    &&& sum_dirs(s) <= u64::MAX
    &&& sum_sizes(s) <= u64::MAX
}

/// Whether an entry is hidden by the Unix convention: its name starts with a
/// dot.
pub open spec fn spec_hidden(e: Entry) -> bool {
    e.name@.len() > 0 && e.name@[0] == '.'
}

/// Whether an entry is taken into account under the given hidden-entry policy.
pub open spec fn spec_counted(e: Entry, with_hidden: bool) -> bool {
    with_hidden || !spec_hidden(e)
}

/// How many entries of `s` count as files: counted entries that are not
/// directories (symlinks count as files).
pub open spec fn count_files(s: Seq<Entry>, with_hidden: bool) -> int
    decreases s.len(),
{
    if s.len() == 0 {
        0
    } else {
        count_files(s.drop_last(), with_hidden) + if spec_counted(s.last(), with_hidden) && !(
        s.last().kind is Dir) {
            1int
        } else {
            0int
        }
    }
}

/// How many entries of `s` count as sub-directories.
pub open spec fn count_dirs(s: Seq<Entry>, with_hidden: bool) -> int
    decreases s.len(),
{
    if s.len() == 0 {
        0
    } else {
        count_dirs(s.drop_last(), with_hidden) + if spec_counted(s.last(), with_hidden)
            && s.last().kind is Dir {
            1int
        } else {
            0int
        }
    }
}

/// Law: the counts charge one per directory entry, blind to file identity —
/// entries that agree on visibility and kind are counted alike however their
/// inodes or sizes differ, so hard links never collapse the file count.
pub proof fn lemma_counts_ignore_file_identity(s1: Seq<Entry>, s2: Seq<Entry>, with_hidden: bool)
    requires
        s1.len() == s2.len(),
        forall|i: int|
            0 <= i < s1.len() ==> spec_counted(#[trigger] s1[i], with_hidden) == spec_counted(
                #[trigger] s2[i],
                with_hidden,
            ) && ((s1[i].kind is Dir) <==> (s2[i].kind is Dir)),
    ensures
        count_files(s1, with_hidden) == count_files(s2, with_hidden),
        count_dirs(s1, with_hidden) == count_dirs(s2, with_hidden),
    decreases s1.len(),
{
    if s1.len() > 0 {
        let d1 = s1.drop_last();
        let d2 = s2.drop_last();
        assert(forall|i: int| 0 <= i < d1.len() ==> #[trigger] d1[i] == s1[i]);
        assert(forall|i: int| 0 <= i < d2.len() ==> #[trigger] d2[i] == s2[i]);
        lemma_counts_ignore_file_identity(d1, d2, with_hidden);
        assert(s1.last() == s1[s1.len() - 1]);
        assert(s2.last() == s2[s2.len() - 1]);
    }
}

/// Neither count exceeds the number of entries, and neither is negative.
pub proof fn lemma_counts_bounded(s: Seq<Entry>, with_hidden: bool)
    ensures
        0 <= count_files(s, with_hidden) <= s.len(),
        0 <= count_dirs(s, with_hidden) <= s.len(),
    decreases s.len(),
{
    if s.len() > 0 {
        lemma_counts_bounded(s.drop_last(), with_hidden);
    }
}

/// The path of a child entry: the parent path and the entry name joined by a
/// separator (none added after an empty parent or one already ending in one).
pub open spec fn spec_child_path(dir: Seq<char>, name: Seq<char>) -> Seq<char> {
    if dir.len() == 0 {
        name
    } else if dir.last() == '/' {
        dir + name
    } else {
        dir + seq!['/'] + name
    }
}

/// The paths of the counted sub-directory entries of `s`, in entry order.
pub open spec fn subdir_paths(dir: Seq<char>, s: Seq<Entry>, with_hidden: bool) -> Seq<Seq<char>>
    decreases s.len(),
{
    if s.len() == 0 {
        Seq::empty()
    } else {
        let rest = subdir_paths(dir, s.drop_last(), with_hidden);
        if spec_counted(s.last(), with_hidden) && s.last().kind is Dir {
            rest.push(spec_child_path(dir, s.last().name@))
        } else {
            rest
        }
    }
}

/// The ledger of one directory level: each counted regular file charges its
/// allocated size under its unique identifier, hard links within the level
/// collapsing onto one key. Empty when size accounting is off.
pub open spec fn scan_ledger(s: Seq<Entry>, with_hidden: bool, with_size: bool) -> Map<u64, u64>
    decreases s.len(),
{
    if s.len() == 0 || !with_size {
        Map::empty()
    } else {
        let rest = scan_ledger(s.drop_last(), with_hidden, with_size);
        if spec_counted(s.last(), with_hidden) && s.last().kind is File {
            rest.insert(
                s.last().ino,
                spec_alloc_size(s.last().len as int, s.last().blksize as int) as u64,
            )
        } else {
            rest
        }
    }
}

/// The number of binary digits of `size`.
fn bit_length(size: u64) -> (r: usize)
    ensures
        r == bit_len(size as nat),
        r <= 64,
        size < pow2(r as nat),
        r > 0 ==> size >= pow2((r - 1) as nat),
{
    let mut m: u64 = size;
    let mut e: usize = 0;
    proof {
        lemma2_to64();
        assert(size as nat / pow2(0) == size as nat);
    }
    while m > 0
        invariant
            m as nat == size as nat / pow2(e as nat),
            e > 0 ==> size as nat >= pow2((e - 1) as nat),
            e <= 64,
        decreases m,
    {
        proof {
            lemma_pow2_pos(e as nat);
            // A non-zero quotient means the divisor does not exceed `size`.
            assert(size as nat >= pow2(e as nat)) by {
                if (size as nat) < pow2(e as nat) {
                    vstd::arithmetic::div_mod::lemma_basic_div(
                        size as int,
                        pow2(e as nat) as int,
                    );
                }
            }
            // The next divisor stays in range: `pow2(64)` already exceeds
            // every `u64`.
            assert(e < 64) by {
                lemma2_to64();
                vstd::arithmetic::power2::lemma2_to64_rest();
                if e >= 64 {
                    if e > 64 {
                        lemma_pow2_strictly_increases(64, e as nat);
                    }
                }
            }
            lemma_div_denominator(size as int, pow2(e as nat) as int, 2);
            assert(pow2(e as nat) * 2 == pow2((e + 1) as nat)) by {
                lemma_pow2_adds(e as nat, 1);
                lemma2_to64();
            }
        }
        m = m / 2;
        e = e + 1;
    }
    proof {
        lemma_pow2_pos(e as nat);
        assert(size < pow2(e as nat)) by {
            lemma_small_div_converse(size as int, pow2(e as nat) as int);
        }
        lemma_bit_len_char(size as nat, e as nat);
    }
    e
}

/// `pow2` for the small exponents a rounding shift can take.
fn pow2_small(sh: usize) -> (r: u64)
    requires
        sh <= 11,
    ensures
        r == pow2(sh as nat),
{
    let mut p: u64 = 1;
    let mut j: usize = 0;
    proof {
        lemma2_to64();
    }
    while j < sh
        invariant
            j <= sh,
            sh <= 11,
            p == pow2(j as nat),
        decreases sh - j,
    {
        proof {
            lemma2_to64();
            if j < 11 {
                lemma_pow2_strictly_increases(j as nat, 11);
            }
            lemma_pow2_adds(j as nat, 1);
        }
        p = p * 2;
        j = j + 1;
    }
    p
}

/// The unit letter for a scale index.
fn unit_letter(u: u64) -> (r: char)
    requires
        u <= 6,
    ensures
        r == spec_unit_char(u as int),
{
    if u == 0 {
        'B'
    } else if u == 1 {
        'K'
    } else if u == 2 {
        'M'
    } else if u == 3 {
        'G'
    } else if u == 4 {
        'T'
    } else if u == 5 {
        'P'
    } else {
        'E'
    }
}

/// Joins a parent path and an entry name with a separator.
pub fn child_path(dir: &String, name: &String) -> (r: String)
    ensures
        r@ == spec_child_path(dir@, name@),
{
    let mut r = dir.clone();
    let n = r.as_str().unicode_len();
    if n == 0 {
        return name.clone();
    }
    if r.as_str().get_char(n - 1) != '/' {
        proof {
            assert(dir@.last() == dir@[n - 1]);
        }
        crate::text::push_char(&mut r, '/');
        proof {
            assert(dir@.push('/') =~= dir@ + seq!['/']);
        }
    }
    r.append(name.as_str());
    r
}

/// Whether every counted regular file of `s` carries size data the ledger can
/// take: a positive block size and an allocated size that fits the word.
pub open spec fn sizes_representable(s: Seq<Entry>, with_hidden: bool) -> bool {
    forall|i: int|
        0 <= i < s.len() && spec_counted(#[trigger] s[i], with_hidden) && s[i].kind is File ==> {
            &&& s[i].blksize > 0
            &&& spec_alloc_size(s[i].len as int, s[i].blksize as int) <= u64::MAX
        }
}

/// Scans one directory level: classifies every entry of `entries`, producing
/// the partial counter for `dirpath` and the list of sub-directories found.
/// Hidden entries are skipped unless `with_hidden`; symlinks count as files
/// of no size; regular files charge their allocated size to the ledger when
/// `with_size`, hard-linked duplicates once.
pub fn scan(dirpath: &String, entries: &Vec<Entry>, with_hidden: bool, with_size: bool) -> (r: (
    Vec<String>,
    Counter,
))
    requires
        with_size ==> sizes_representable(entries@, with_hidden),
    ensures
        r.1.wf(),
        r.1.dirpath@ == dirpath@,
        r.1.n_files == count_files(entries@, with_hidden),
        r.1.n_dirs == count_dirs(entries@, with_hidden),
        r.1.with_size() == with_size,
        r.1.ledger() == scan_ledger(entries@, with_hidden, with_size),
        r.0@.map_values(|p: String| p@) == subdir_paths(dirpath@, entries@, with_hidden),
{
    let mut dirs: Vec<String> = Vec::new();
    let mut cnt = Counter::new(dirpath, with_size);
    let n = entries.len();
    let mut i: usize = 0;
    proof {
        assert(entries@.take(0) =~= Seq::<Entry>::empty());
        assert(dirs@.map_values(|p: String| p@) =~= Seq::<Seq<char>>::empty());
    }
    while i < n
        invariant
            i <= n,
            n == entries@.len(),
            with_size ==> sizes_representable(entries@, with_hidden),
            cnt.wf(),
            cnt.dirpath@ == dirpath@,
            cnt.n_files == count_files(entries@.take(i as int), with_hidden),
            cnt.n_dirs == count_dirs(entries@.take(i as int), with_hidden),
            cnt.with_size() == with_size,
            cnt.ledger() == scan_ledger(entries@.take(i as int), with_hidden, with_size),
            dirs@.map_values(|p: String| p@) == subdir_paths(
                dirpath@,
                entries@.take(i as int),
                with_hidden,
            ),
        decreases n - i,
    {
        let entry = &entries[i];
        proof {
            lemma_counts_bounded(entries@.take(i as int), with_hidden);
            assert(entries@.take(i as int + 1).drop_last() =~= entries@.take(i as int));
            assert(entries@.take(i as int + 1).last() == entries@[i as int]);
        }
        let name_len = entry.name.as_str().unicode_len();
        let is_hidden = name_len > 0 && entry.name.as_str().get_char(0) == '.';
        if !with_hidden && is_hidden {
            // Hidden entries are skipped entirely under the default policy.
        } else {
            match entry.kind {
                EntryKind::Symlink => {
                    // A symlink counts as a file and contributes no size.
                    cnt.n_files = cnt.n_files + 1;
                },
                EntryKind::Dir => {
                    cnt.n_dirs = cnt.n_dirs + 1;
                    let child = child_path(dirpath, &entry.name);
                    dirs.push(child);
                },
                EntryKind::File => {
                    cnt.n_files = cnt.n_files + 1;
                    if with_size {
                        let size = alloc_size(entry.len, entry.blksize);
                        match &mut cnt.sz_map {
                            Some(l) => {
                                l.insert(entry.ino, size);
                            },
                            None => {
                                proof {
                                    assert(false);
                                }
                            },
                        }
                    }
                },
            }
        }
        proof {
            assert(dirs@.map_values(|p: String| p@) =~= subdir_paths(
                dirpath@,
                entries@.take(i as int + 1),
                with_hidden,
            ));
        }
        i = i + 1;
    }
    proof {
        assert(entries@.take(n as int) =~= entries@);
    }
    (dirs, cnt)
}

} // verus!
