//! Destination-path normalization for the pack inputs: every path is
//! forward-slash separated and rooted at `/`, parent-directory entries are
//! synthesized for the files, and directory entries are ordered and
//! deduplicated case-insensitively.

use vstd::prelude::*;
use crate::builder::bytes16_eq;
use crate::builder::lemma_seq_le_total;
use crate::builder::lemma_seq_le_trans;
use crate::builder::seq_le;
use crate::builder::seq_le_exec;
use crate::packager::PackItem;
use crate::text::encode_utf16_units;
use crate::text::lower_of;
use crate::text::lower_str;
use crate::text::utf16_of;

verus! {

/// The inputs `pack` accepts: bare files and directories land under their
/// own name, mappings under a caller-chosen destination.
pub enum PackInput {
    /// One file, stored at the archive root under its own name.
    SourceFile {
        /// The file on disk.
        src: String,
    },
    /// One directory, mapped recursively under its own name.
    SourceDir {
        /// The directory on disk.
        src: String,
    },
    /// One file stored at an explicit destination.
    FileMapping {
        /// The file on disk.
        src: String,
        /// Destination path, or a `/`-ended destination directory.
        dst: String,
    },
    /// One directory mapped recursively under an explicit destination.
    DirMapping {
        /// The directory on disk.
        src: String,
        /// Destination prefix.
        dst: String,
    },
}

/// Roots a file name at the top of the archive.
pub fn auto_root_dst(file_name: &str) -> (r: String)
    ensures
        r@ == seq!['/'] + file_name@,
{
    let s: String = "/".to_owned();
    proof {
        reveal_strlit("/");
    }
    let r = s.concat(file_name);
    proof {
        assert(r@ =~= seq!['/'] + file_name@);
    }
    r
}

/// Resolves an explicit file mapping: a destination ending in `/` names a
/// directory, and the file keeps its own name under it.
pub fn mapping_dst(dst: &str, file_name: &str) -> (r: String)
    ensures
        dst@.len() > 0 && dst@.last() == '/' ==> r@ == dst@ + file_name@,
        !(dst@.len() > 0 && dst@.last() == '/') ==> r@ == dst@,
{
    let n = dst.unicode_len();
    if n > 0 && dst.get_char(n - 1) == '/' {
        let r = dst.to_owned().concat(file_name);
        r
    } else {
        dst.to_owned()
    }
}

/// Strips one trailing slash from a directory-mapping destination.
pub fn dir_mapping_prefix(dst: &str) -> (r: String)
    ensures
        dst@.len() > 0 && dst@.last() == '/' ==> r@ == dst@.take(dst@.len() - 1),
        !(dst@.len() > 0 && dst@.last() == '/') ==> r@ == dst@,
{
    let n = dst.unicode_len();
    if n > 0 && dst.get_char(n - 1) == '/' {
        let r = dst.substring_char(0, n - 1).to_owned();
        proof {
            assert(r@ =~= dst@.take(dst@.len() - 1));
        }
        r
    } else {
        dst.to_owned()
    }
}

/// Joins a relative path under a destination prefix.
pub fn join_under(prefix: &str, rel: &str) -> (r: String)
    ensures
        rel@.len() == 0 ==> r@ == prefix@,
        rel@.len() > 0 ==> r@ == prefix@ + seq!['/'] + rel@,
{
    if rel.unicode_len() == 0 {
        prefix.to_owned()
    } else {
        let sep: &str = "/";
        proof {
            reveal_strlit("/");
        }
        let r = prefix.to_owned().concat(sep).concat(rel);
        proof {
            assert(r@ =~= prefix@ + seq!['/'] + rel@);
        }
        r
    }
}

/// Ends a directory destination with one slash.
pub fn ensure_dir_slash(s: &str) -> (r: String)
    ensures
        s@.len() > 0 && s@.last() == '/' ==> r@ == s@,
        !(s@.len() > 0 && s@.last() == '/') ==> r@ == s@ + seq!['/'],
{
    let n = s.unicode_len();
    if n > 0 && s.get_char(n - 1) == '/' {
        s.to_owned()
    } else {
        let sep: &str = "/";
        proof {
            reveal_strlit("/");
        }
        let r = s.to_owned().concat(sep);
        proof {
            assert(r@ =~= s@ + seq!['/']);
        }
        r
    }
}

/// Position of the last `/` in a path, or -1.
pub open spec fn last_slash(s: Seq<char>) -> int
    decreases s.len(),
{
    if s.len() == 0 {
        -1
    } else if s[s.len() - 1] == '/' {
        s.len() - 1
    } else {
        last_slash(s.drop_last())
    }
}

/// The immediate parent directory of a destination path, slash included.
pub open spec fn parent_dir(s: Seq<char>) -> Seq<char> {
    s.take(last_slash(s) + 1)
}

/// Extracts the immediate parent directory of a destination path.
#[verifier::loop_isolation(false)]
pub fn parent_dir_of(s: &str) -> (r: Option<String>)
    ensures
        match r {
            Some(p) => last_slash(s@) >= 0 && p@ == parent_dir(s@),
            None => last_slash(s@) == -1,
        },
{
    let n = s.unicode_len();
    let mut i: usize = n;
    proof {
        assert(s@.take(n as int) =~= s@);
    }
    while i > 0
        invariant
            i <= n,
            n == s@.len(),
            last_slash(s@) == last_slash(s@.take(i as int)),
        decreases i,
    {
        proof {
            assert(s@.take(i as int).drop_last() =~= s@.take(i as int - 1));
            assert(s@.take(i as int)[i - 1] == s@[i - 1]);
        }
        if s.get_char(i - 1) == '/' {
            let p = s.substring_char(0, i).to_owned();
            proof {
                assert(p@ =~= parent_dir(s@));
            }
            return Some(p);
        }
        i -= 1;
    }
    proof {
        assert(s@.take(0) =~= Seq::<char>::empty());
    }
    None
}

/// Whether a directory entry is one of the sources `finish_dir_items`
/// draws from: the root, a caller entry, or a file's immediate parent.
pub open spec fn dir_origin(fis: Seq<PackItem>, dis: Seq<String>, v: Seq<char>) -> bool {
    ||| v == seq!['/']
    ||| exists|q: int| 0 <= q < dis.len() && v == (#[trigger] dis[q])@
    ||| exists|q: int|
        0 <= q < fis.len() && last_slash((#[trigger] fis[q]).dst@) >= 0 && v == parent_dir(
            fis[q].dst@,
        )
}

/// The case-insensitive ordering key of a directory path.
pub open spec fn dir_key(s: Seq<char>) -> Seq<u16> {
    utf16_of(lower_of(s))
}

/// Computes the case-insensitive ordering key of a directory path.
pub fn dir_key_of(s: &str) -> (r: Vec<u16>)
    ensures
        r@ == dir_key(s@),
{
    let low = lower_str(s);
    encode_utf16_units(low.as_str())
}

/// Whether some entry of the list carries this case-insensitive key.
pub open spec fn key_in(xs: Seq<String>, key: Seq<u16>) -> bool {
    exists|t: int| 0 <= t < xs.len() && dir_key((#[trigger] xs[t])@) == key
}

/// Whether some entry at or after position `t` carries this key.
pub open spec fn key_in_from(xs: Seq<String>, t: int, key: Seq<u16>) -> bool {
    exists|v: int| t <= v < xs.len() && dir_key((#[trigger] xs[v])@) == key
}

/// A key present in a list stays present when the list grows.
pub proof fn lemma_key_in_push(xs: Seq<String>, x: String, key: Seq<u16>)
    requires
        key_in(xs, key),
    ensures
        key_in(xs.push(x), key),
{
    let t = choose|t: int| 0 <= t < xs.len() && dir_key((#[trigger] xs[t])@) == key;
    assert(xs.push(x)[t] == xs[t]);
}

/// Completes the directory list for a pack: the immediate parent of every
/// file, the root, and the caller's own directory entries, ordered by their
/// lower-cased form with case-insensitive neighbours collapsed.
///
/// Every surviving entry is one of those sources, every source survives up
/// to case, and no two neighbours share a lower-cased form.
#[verifier::loop_isolation(false)]
#[verifier::rlimit(60)]
pub fn finish_dir_items(file_items: &Vec<PackItem>, dir_items: Vec<String>) -> (r: Vec<String>)
    ensures
        forall|t: int|
            0 <= t < r@.len() ==> #[trigger] dir_origin(file_items@, dir_items@, r@[t]@),
        key_in(r@, dir_key(seq!['/'])),
        forall|q: int|
            0 <= q < dir_items@.len() ==> key_in(r@, dir_key((#[trigger] dir_items@[q])@)),
        forall|q: int|
            0 <= q < file_items@.len() && last_slash((#[trigger] file_items@[q]).dst@) >= 0
                ==> key_in(r@, dir_key(parent_dir(file_items@[q].dst@))),
        forall|i: int, j: int|
            0 <= i < j < r@.len() ==> seq_le(dir_key((#[trigger] r@[i])@), dir_key(
                (#[trigger] r@[j])@,
            )),
        forall|t: int| 0 < t < r@.len() ==> dir_key((#[trigger] r@[t - 1])@) != dir_key(r@[t]@),
{
    let ghost fis = file_items@;
    let ghost dis = dir_items@;
    // gather: the caller's entries, each file's parent, and the root
    let mut all: Vec<String> = dir_items;
    let mut q: usize = 0;
    proof {
        assert forall|t: int| 0 <= t < all@.len() implies #[trigger] dir_origin(
            fis,
            dis,
            all@[t]@,
        ) by {
            assert(all@[t]@ == dis[t]@);
        }
        assert forall|qq: int| 0 <= qq < dis.len() implies key_in(
            all@,
            dir_key((#[trigger] dis[qq])@),
        ) by {
            assert(dir_key(all@[qq]@) == dir_key(dis[qq]@));
        }
    }
    while q < file_items.len()
        invariant
            q <= fis.len(),
            forall|t: int|
                0 <= t < all@.len() ==> #[trigger] dir_origin(fis, dis, all@[t]@),
            forall|qq: int|
                0 <= qq < dis.len() ==> key_in(all@, dir_key((#[trigger] dis[qq])@)),
            forall|qq: int|
                0 <= qq < q && last_slash((#[trigger] fis[qq]).dst@) >= 0 ==> key_in(
                    all@,
                    dir_key(parent_dir(fis[qq].dst@)),
                ),
        decreases fis.len() - q,
    {
        let ghost all_pre = all@;
        match parent_dir_of(file_items[q].dst.as_str()) {
            Some(p) => {
                proof {
                    assert(p@ == parent_dir(fis[q as int].dst@));
                    assert(dir_origin(fis, dis, p@));
                }
                all.push(p);
                proof {
                    assert(dir_key(all@[all@.len() - 1]@) == dir_key(parent_dir(fis[q as int].dst@)));
                    assert forall|qq: int| 0 <= qq < dis.len() implies key_in(
                        all@,
                        dir_key((#[trigger] dis[qq])@),
                    ) by {
                        lemma_key_in_push(all_pre, all@[all@.len() - 1], dir_key(dis[qq]@));
                    }
                    assert forall|qq: int|
                        0 <= qq < q + 1 && last_slash((#[trigger] fis[qq]).dst@) >= 0 implies key_in(
                        all@,
                        dir_key(parent_dir(fis[qq].dst@)),
                    ) by {
                        if qq < q {
                            lemma_key_in_push(
                                all_pre,
                                all@[all@.len() - 1],
                                dir_key(parent_dir(fis[qq].dst@)),
                            );
                        }
                    }
                }
            },
            None => {},
        }
        q += 1;
    }
    let root: String = "/".to_owned();
    proof {
        reveal_strlit("/");
        assert(root@ =~= seq!['/']);
    }
    proof {
        assert(dir_origin(fis, dis, root@));
    }
    let ghost all_pre2 = all@;
    all.push(root);
    proof {
        assert(dir_key(all@[all@.len() - 1]@) == dir_key(seq!['/']));
        assert forall|qq: int| 0 <= qq < dis.len() implies key_in(
            all@,
            dir_key((#[trigger] dis[qq])@),
        ) by {
            lemma_key_in_push(all_pre2, all@[all@.len() - 1], dir_key(dis[qq]@));
        }
        assert forall|qq: int|
            0 <= qq < fis.len() && last_slash((#[trigger] fis[qq]).dst@) >= 0 implies key_in(
            all@,
            dir_key(parent_dir(fis[qq].dst@)),
        ) by {
            lemma_key_in_push(all_pre2, all@[all@.len() - 1], dir_key(parent_dir(fis[qq].dst@)));
        }
    }
    let ghost gathered = all@;

    // order case-insensitively
    let mut rest = all;
    let mut sorted: Vec<String> = Vec::new();
    proof {
        assert forall|key: Seq<u16>| #[trigger]
            key_in(gathered, key) implies key_in(sorted@, key) || key_in(rest@, key) by {
            let t = choose|t: int| 0 <= t < gathered.len() && dir_key((#[trigger] gathered[t])@) == key;
            assert(rest@[t] == gathered[t]);
        }
    }
    while rest.len() > 0
        invariant
            sorted@.len() + rest@.len() == gathered.len(),
            forall|t: int|
                0 <= t < sorted@.len() ==> #[trigger] dir_origin(fis, dis, sorted@[t]@),
            forall|t: int|
                0 <= t < rest@.len() ==> #[trigger] dir_origin(fis, dis, rest@[t]@),
            forall|key: Seq<u16>| #[trigger]
                key_in(gathered, key) ==> key_in(sorted@, key) || key_in(rest@, key),
            forall|i: int, j: int|
                0 <= i < j < sorted@.len() ==> seq_le(
                    dir_key((#[trigger] sorted@[i])@),
                    dir_key((#[trigger] sorted@[j])@),
                ),
        decreases rest@.len(),
    {
        let ghost rest_before = rest@;
        let x = rest.remove(0);
        proof {
            assert(forall|t: int| 0 <= t < rest@.len() ==> #[trigger] rest@[t] == rest_before[t + 1]);
            assert(x == rest_before[0]);
        }
        let kx = dir_key_of(x.as_str());
        let mut p: usize = 0;
        let mut stop = false;
        while p < sorted.len() && !stop
            invariant
                p <= sorted@.len(),
                kx@ == dir_key(x@),
                forall|t: int|
                    0 <= t < p ==> seq_le(dir_key((#[trigger] sorted@[t])@), dir_key(x@)),
                stop ==> p < sorted@.len() && !seq_le(dir_key(sorted@[p as int]@), dir_key(x@)),
            decreases sorted@.len() - p + (if stop {
                0int
            } else {
                1int
            }),
        {
            let kp = dir_key_of(sorted[p].as_str());
            if seq_le_exec(&kp, &kx) {
                p += 1;
            } else {
                stop = true;
            }
        }
        let ghost sorted_before = sorted@;
        sorted.insert(p, x);
        proof {
            assert(sorted@ == sorted_before.insert(p as int, x));
            assert(forall|t: int| 0 <= t < p ==> #[trigger] sorted@[t] == sorted_before[t]);
            assert(sorted@[p as int] == x);
            assert(forall|t: int|
                p < t < sorted@.len() ==> #[trigger] sorted@[t] == sorted_before[t - 1]);
            assert forall|key: Seq<u16>| #[trigger]
                key_in(gathered, key) implies key_in(sorted@, key) || key_in(rest@, key) by {
                if key_in(sorted_before, key) {
                    let t = choose|t: int|
                        0 <= t < sorted_before.len() && dir_key((#[trigger] sorted_before[t])@)
                            == key;
                    if t < p {
                        assert(dir_key(sorted@[t]@) == key);
                    } else {
                        assert(dir_key(sorted@[t + 1]@) == key);
                    }
                } else if key_in(rest_before, key) {
                    let t = choose|t: int|
                        0 <= t < rest_before.len() && dir_key((#[trigger] rest_before[t])@) == key;
                    if t == 0 {
                        assert(dir_key(sorted@[p as int]@) == key);
                    } else {
                        assert(dir_key(rest@[t - 1]@) == key);
                    }
                }
            }
            assert forall|i: int, j: int| 0 <= i < j < sorted@.len() implies seq_le(
                dir_key((#[trigger] sorted@[i])@),
                dir_key((#[trigger] sorted@[j])@),
            ) by {
                if i == p && j > p {
                    lemma_seq_le_total(dir_key(x@), dir_key(sorted_before[p as int]@));
                    if j - 1 > p {
                        lemma_seq_le_trans(
                            dir_key(x@),
                            dir_key(sorted_before[p as int]@),
                            dir_key(sorted_before[j - 1]@),
                        );
                    }
                }
            }
        }
    }

    // collapse case-insensitive neighbours
    let ghost sorted_all = sorted@;
    let mut out: Vec<String> = Vec::new();
    let mut t: usize = 0;
    proof {
        assert forall|key: Seq<u16>| #[trigger]
            key_in(sorted_all, key) implies key_in(out@, key) || key_in_from(
            sorted_all,
            0,
            key,
        ) by {
            let v = choose|v: int|
                0 <= v < sorted_all.len() && dir_key((#[trigger] sorted_all[v])@) == key;
            assert(key_in_from(sorted_all, 0, key));
        }
    }
    while t < sorted.len()
        invariant
            t <= sorted@.len(),
            sorted@ == sorted_all,
            forall|key: Seq<u16>| #[trigger]
                key_in(sorted_all, key) ==> key_in(out@, key) || key_in_from(
                    sorted_all,
                    t as int,
                    key,
                ),
            forall|u: int|
                0 <= u < out@.len() ==> #[trigger] dir_origin(fis, dis, out@[u]@),
            forall|i: int, j: int|
                0 <= i < j < out@.len() ==> seq_le(
                    dir_key((#[trigger] out@[i])@),
                    dir_key((#[trigger] out@[j])@),
                ),
            forall|u: int| 0 < u < out@.len() ==> dir_key((#[trigger] out@[u - 1])@) != dir_key(
                out@[u]@,
            ),
            out@.len() > 0 ==> t > 0 && dir_key(out@[out@.len() - 1]@) == dir_key(
                sorted@[t - 1]@,
            ),
        decreases sorted@.len() - t,
    {
        let keep = if out.len() == 0 {
            true
        } else {
            let klast = dir_key_of(out[out.len() - 1].as_str());
            let kcur = dir_key_of(sorted[t].as_str());
            !bytes16_eq(&klast, &kcur)
        };
        if keep {
            let s2 = sorted[t].clone();
            proof {
                assert(s2@ == sorted@[t as int]@);
                assert(dir_origin(fis, dis, sorted@[t as int]@));
                let ob = out@;
                assert forall|u: int| 0 <= u < ob.len() implies seq_le(
                    dir_key((#[trigger] ob[u])@),
                    dir_key(sorted@[t as int]@),
                ) by {
                    assert(dir_key(ob[ob.len() - 1]@) == dir_key(sorted@[t as int - 1]@));
                    assert(seq_le(
                        dir_key(sorted@[t as int - 1]@),
                        dir_key(sorted@[t as int]@),
                    ));
                    if u < ob.len() - 1 {
                        lemma_seq_le_trans(
                            dir_key(ob[u]@),
                            dir_key(ob[ob.len() - 1]@),
                            dir_key(sorted@[t as int]@),
                        );
                    }
                }
            }
            let ghost out_pre = out@;
            out.push(s2);
            proof {
                assert(dir_key(out@[out@.len() - 1]@) == dir_key(sorted_all[t as int]@));
                assert forall|key: Seq<u16>| #[trigger]
                    key_in(sorted_all, key) implies key_in(out@, key) || key_in_from(
                    sorted_all,
                    t as int + 1,
                    key,
                ) by {
                    if key_in(out_pre, key) {
                        lemma_key_in_push(out_pre, s2, key);
                    } else if key_in_from(sorted_all, t as int, key) {
                        let v = choose|v: int|
                            t as int <= v < sorted_all.len() && dir_key(
                                (#[trigger] sorted_all[v])@,
                            ) == key;
                        if v == t as int {
                            assert(dir_key(out@[out@.len() - 1]@) == key);
                        }
                    }
                }
            }
        } else {
            proof {
                assert(dir_key(out@[out@.len() - 1]@) == dir_key(sorted@[t as int]@));
                assert forall|key: Seq<u16>| #[trigger]
                    key_in(sorted_all, key) implies key_in(out@, key) || key_in_from(
                    sorted_all,
                    t as int + 1,
                    key,
                ) by {
                    if !key_in(out@, key) && key_in_from(sorted_all, t as int, key) {
                        let v = choose|v: int|
                            t as int <= v < sorted_all.len() && dir_key(
                                (#[trigger] sorted_all[v])@,
                            ) == key;
                        if v == t as int {
                            assert(dir_key(out@[out@.len() - 1]@) == key);
                            assert(key_in(out@, key));
                        }
                    }
                }
            }
        }
        t += 1;
    }
    proof {
        // nothing is left to scan, so the gathered keys all reached `out`
        assert forall|key: Seq<u16>| #[trigger] key_in(gathered, key) implies key_in(out@, key) by {
            assert(key_in(sorted_all, key) || key_in(Seq::<String>::empty(), key)) by {
                if key_in(rest@, key) {
                    let v = choose|v: int|
                        0 <= v < rest@.len() && dir_key((#[trigger] rest@[v])@) == key;
                    assert(false);
                }
            }
            if key_in_from(sorted_all, t as int, key) {
                let v = choose|v: int|
                    t as int <= v < sorted_all.len() && dir_key((#[trigger] sorted_all[v])@)
                        == key;
                assert(false);
            }
        }
        assert(key_in(gathered, dir_key(seq!['/']))) by {
            assert(dir_key(gathered[gathered.len() - 1]@) == dir_key(seq!['/']));
        }
    }
    out
}

} // verus!
