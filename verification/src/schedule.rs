use crate::addr::{format_ipv4, ipv4_text, lemma_ipv4_text_parses_back};
use crate::classify::{class_of, AddrClass};
use crate::range::IpRange;
use vstd::prelude::*;

verus! {

/// Partitions the targets, in order, into waves of at most `concurrency`
/// entries: every wave but the last is full, no wave is empty, and the
/// waves concatenated are exactly the given targets — no target is skipped
/// or duplicated. One probe runs per target of a wave, so no more than
/// `concurrency` probes are ever in flight at once.
pub fn plan_waves(targets: Vec<String>, concurrency: usize) -> (waves: Vec<Vec<String>>)
    requires
        concurrency >= 1,
    ensures
        waves@.map(|i: int, w: Vec<String>| w@).flatten() == targets@,
        forall|w: int| 0 <= w < waves@.len() ==> 1 <= #[trigger] waves@[w]@.len() <= concurrency,
        forall|w: int| 0 <= w < waves@.len() - 1 ==> #[trigger] waves@[w]@.len() == concurrency,
{
    broadcast use vstd::seq_lib::group_seq_properties;
    broadcast use vstd::prelude::Seq::<_>::lemma_flatten_push;

    let ghost orig = targets@;
    let mut rest = targets;
    let mut waves: Vec<Vec<String>> = Vec::new();
    let mut cur: Vec<String> = Vec::new();
    proof {
        assert(waves@.map(|i: int, w: Vec<String>| w@).flatten() =~= Seq::<String>::empty());
    }
    while rest.len() > 0
        invariant
            concurrency >= 1,
            cur@.len() < concurrency,
            waves@.map(|i: int, w: Vec<String>| w@).flatten() + cur@ + rest@ =~= orig,
            forall|w: int| 0 <= w < waves@.len() ==> #[trigger] waves@[w]@.len() == concurrency,
        decreases rest@.len(),
    {
        let t = rest.remove(0);
        cur.push(t);
        if cur.len() == concurrency {
            let ghost old_waves = waves@;
            let ghost full = cur@;
            waves.push(cur);
            cur = Vec::new();
            proof {
                let om = old_waves.map(|i: int, w: Vec<String>| w@);
                assert(waves@.map(|i: int, w: Vec<String>| w@) =~~= om.push(full));
                om.lemma_flatten_push(full);
            }
        }
    }
    if cur.len() > 0 {
        let ghost old_waves = waves@;
        let ghost part = cur@;
        waves.push(cur);
        proof {
            let om = old_waves.map(|i: int, w: Vec<String>| w@);
            assert(waves@.map(|i: int, w: Vec<String>| w@) =~~= om.push(part));
            om.lemma_flatten_push(part);
        }
    }
    proof {
        assert(waves@.map(|i: int, w: Vec<String>| w@).flatten() =~= orig);
    }
    waves
}

/// Takes the next wave of a range sweep: up to `concurrency` consecutive
/// addresses off the front of the enumeration, rendered as dotted-quad
/// strings, in ascending order. The wave is as large as the remaining range
/// allows, so it is empty only once the range is exhausted.
pub fn take_wave(range: &mut IpRange, concurrency: usize) -> (wave: Vec<String>)
    requires
        old(range).wf(),
        concurrency >= 1,
    ensures
        final(range).wf(),
        wave@.len() == if concurrency <= old(range).remaining().len() {
            concurrency as int
        } else {
            old(range).remaining().len() as int
        },
        forall|i: int|
            0 <= i < wave@.len() ==> #[trigger] wave@[i]@ == ipv4_text(
                old(range).remaining()[i],
            ),
        // the rendered targets classify back as the addresses they came from
        forall|i: int|
            0 <= i < wave@.len() ==> class_of(#[trigger] wave@[i]@) == (AddrClass::V4 {
                key: old(range).remaining()[i],
            }),
        final(range).remaining() == old(range).remaining().skip(wave@.len() as int),
{
    let ghost orig = old(range).remaining();
    let mut wave: Vec<String> = Vec::new();
    loop
        invariant
            range.wf(),
            wave@.len() <= concurrency,
            wave@.len() <= orig.len(),
            range.remaining() =~= orig.skip(wave@.len() as int),
            forall|i: int|
                0 <= i < wave@.len() ==> #[trigger] wave@[i]@ == ipv4_text(orig[i]),
        ensures
            wave@.len() == concurrency || range.remaining().len() == 0,
            range.wf(),
            wave@.len() <= concurrency,
            wave@.len() <= orig.len(),
            range.remaining() =~= orig.skip(wave@.len() as int),
            forall|i: int|
                0 <= i < wave@.len() ==> #[trigger] wave@[i]@ == ipv4_text(orig[i]),
        decreases concurrency - wave@.len(),
    {
        if wave.len() == concurrency {
            break;
        }
        match range.next() {
            None => {
                break;
            },
            Some(k) => {
                proof {
                    assert(orig.skip(wave@.len() as int)[0] == orig[wave@.len() as int]);
                    assert(orig.skip(wave@.len() as int).drop_first() =~= orig.skip(
                        wave@.len() as int + 1,
                    ));
                }
                let s = format_ipv4(k);
                wave.push(s);
            },
        }
    }
    proof {
        if wave@.len() != concurrency {
            assert(orig.skip(wave@.len() as int).len() == 0);
        }
        assert forall|i: int| 0 <= i < wave@.len() implies class_of(#[trigger] wave@[i]@)
            == (AddrClass::V4 { key: orig[i] }) by {
            lemma_ipv4_text_parses_back(orig[i]);
        }
    }
    wave
}

} // verus!
