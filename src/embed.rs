//! Preparation of embedding requests: which texts are sent, in which
//! batches.

use vstd::prelude::*;
use crate::error::MemoryError;
use crate::segment::string_views;
use crate::text::{chars_of, trim, trim_chars};

verus! {

/// The texts of `ts` that are not blank, in order.
pub open spec fn nonblank(ts: Seq<Seq<char>>) -> Seq<Seq<char>> {
    ts.filter(|t: Seq<char>| trim(t).len() > 0)
}

/// `s` cut into consecutive batches of `size`, the last one possibly
/// shorter.
pub open spec fn batches(s: Seq<Seq<char>>, size: nat) -> Seq<Seq<Seq<char>>>
    decreases s.len(),
{
    if s.len() == 0 || size == 0 {
        Seq::empty()
    } else if s.len() <= size {
        seq![s]
    } else {
        seq![s.subrange(0, size as int)] + batches(s.subrange(size as int, s.len() as int), size)
    }
}

/// The string views of each batch.
pub open spec fn batch_views(b: Seq<Vec<String>>) -> Seq<Seq<Seq<char>>> {
    b.map_values(|v: Vec<String>| string_views(v@))
}

/// The requests that embedding `texts` makes: none for no texts, an
/// `InvalidInput` error where every text is blank, else the non-blank texts
/// in batches of `batch_size`. The vectors that come back, batch after
/// batch, line up with the non-blank texts.
pub fn prepare_embed_batch(texts: &Vec<String>, batch_size: usize) -> (r: Result<Vec<Vec<String>>, MemoryError>)
    requires
        batch_size > 0,
    ensures
        texts@.len() == 0 ==> r.is_ok() && r.unwrap()@.len() == 0,
        texts@.len() > 0 && nonblank(string_views(texts@)).len() == 0 ==> r.is_err() && match r.unwrap_err() {
            MemoryError::InvalidInput(m) => m@ == "All input texts are empty"@,
            _ => false,
        },
        nonblank(string_views(texts@)).len() > 0 ==> r.is_ok() && batch_views(r.unwrap()@) == batches(
            nonblank(string_views(texts@)),
            batch_size as nat,
        ),
{
    if texts.len() == 0 {
        return Ok(Vec::new());
    }
    let ghost tv = string_views(texts@);
    let mut valid: Vec<String> = Vec::new();
    let mut i: usize = 0;
    proof {
        reveal(Seq::filter);
        assert(tv.subrange(0, 0).filter(|t: Seq<char>| trim(t).len() > 0) =~= Seq::<Seq<char>>::empty());
        assert(string_views(valid@) =~= Seq::<Seq<char>>::empty());
    }
    while i < texts.len()
        invariant
            tv == string_views(texts@),
            i <= texts@.len(),
            string_views(valid@) == tv.subrange(0, i as int).filter(|t: Seq<char>| trim(t).len() > 0),
        decreases texts@.len() - i,
    {
        proof {
            assert(tv.subrange(0, i + 1) =~= tv.subrange(0, i as int).push(tv[i as int]));
            tv.subrange(0, i as int).lemma_filter_push(tv[i as int], |t: Seq<char>| trim(t).len() > 0);
        }
        let ghost before = valid@;
        if trim_chars(&chars_of(texts[i].as_str())).len() > 0 {
            valid.push(texts[i].clone());
            assert(string_views(valid@) =~= string_views(before).push(texts@[i as int]@));
        }
        i = i + 1;
    }
    assert(tv.subrange(0, tv.len() as int) =~= tv);
    if valid.len() == 0 {
        return Err(MemoryError::InvalidInput(String::from_str("All input texts are empty")));
    }
    let ghost all = string_views(valid@);
    let mut out: Vec<Vec<String>> = Vec::new();
    let mut start: usize = 0;
    let n = valid.len();
    proof {
        assert(all.subrange(0, n as int) =~= all);
        assert(batch_views(out@) =~= Seq::<Seq<Seq<char>>>::empty());
    }
    while start < n
        invariant
            n == valid@.len(),
            all == string_views(valid@),
            start <= n,
            batch_size > 0,
            batch_views(out@) + batches(all.subrange(start as int, n as int), batch_size as nat) == batches(all, batch_size as nat),
        decreases n - start,
    {
        let end: usize = if n - start <= batch_size {
            n
        } else {
            start + batch_size
        };
        let mut chunk: Vec<String> = Vec::new();
        let mut k: usize = start;
        while k < end
            invariant
                start <= k <= end <= n,
                n == valid@.len(),
                string_views(chunk@) == all.subrange(start as int, k as int),
                all == string_views(valid@),
            decreases end - k,
        {
            let ghost before = chunk@;
            let item = valid[k].clone();
            chunk.push(item);
            proof {
                assert(chunk@ =~= before.push(item));
                assert(string_views(before.push(item)) =~= string_views(before).push(item@));
                assert(all[k as int] == item@);
                assert(all.subrange(start as int, k + 1) =~= all.subrange(start as int, k as int).push(all[k as int]));
            }
            k = k + 1;
            assert(string_views(chunk@) =~= all.subrange(start as int, k as int));
        }
        let ghost rest = all.subrange(start as int, n as int);
        proof {
            if n - start <= batch_size {
                assert(batches(rest, batch_size as nat) == seq![rest]);
                assert(all.subrange(n as int, n as int) =~= Seq::<Seq<char>>::empty());
            } else {
                assert(rest.subrange(0, batch_size as int) =~= all.subrange(start as int, end as int));
                assert(rest.subrange(batch_size as int, rest.len() as int) =~= all.subrange(end as int, n as int));
            }
        }
        let ghost bo = batch_views(out@);
        out.push(chunk);
        assert(batch_views(out@) =~= bo.push(all.subrange(start as int, end as int)));
        start = end;
        proof {
            assert(batch_views(out@) + batches(all.subrange(start as int, n as int), batch_size as nat) =~= bo + batches(rest, batch_size as nat));
        }
    }
    Ok(out)
}

} // verus!
