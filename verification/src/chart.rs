//! Chart preparation: the legend of a scatter chart and the color index
//! of each point.

use vstd::prelude::*;
use crate::stats::{distinct_texts, distinct_strings, texts_unique, text_index, find_text, lemma_text_index};

verus! {

/// The legend of each point: the labels in order of first appearance, and
/// for each point the position of its label in that list, kept in a byte
/// (the position modulo 256).
pub fn legend_indices(labels: &Vec<String>) -> (r: (Vec<String>, Vec<u8>))
    ensures
        r.0.deep_view() == distinct_texts(labels.deep_view()),
        r.1.len() == labels.len(),
        forall|i: int| 0 <= i < labels.len() ==> (#[trigger] r.1@[i]) as int
            == text_index(distinct_texts(labels.deep_view()), labels.deep_view()[i]) % 256,
{
    let legends = distinct_strings(labels);
    let ghost lv = labels.deep_view();
    let ghost dv = legends.deep_view();
    let mut colors: Vec<u8> = Vec::new();
    let mut i: usize = 0;
    while i < labels.len()
        invariant
            lv == labels.deep_view(),
            dv == legends.deep_view(),
            dv == distinct_texts(lv),
            0 <= i <= labels.len(),
            colors.len() == i,
            forall|q: int| 0 <= q < i ==> (#[trigger] colors@[q]) as int == text_index(dv, lv[q]) % 256,
        decreases labels.len() - i,
    {
        assert(lv[i as int] == labels@[i as int]@);
        proof {
            lemma_distinct_contains(lv, i as int);
            lemma_text_index(dv, lv[i as int]);
        }
        let c: u8 = match find_text(&legends, labels[i].as_str()) {
            Some(k) => (k % 256) as u8,
            None => 0,
        };
        colors.push(c);
        i = i + 1;
    }
    (legends, colors)
}

/// Every text of `s` appears among its distinct texts.
pub proof fn lemma_distinct_contains(s: Seq<Seq<char>>, i: int)
    requires
        0 <= i < s.len(),
    ensures
        distinct_texts(s).contains(s[i]),
    decreases s.len(),
{
    if i == s.len() - 1 {
        let p = distinct_texts(s.drop_last());
        if !p.contains(s.last()) {
            assert(distinct_texts(s) == p.push(s.last()));
            assert(distinct_texts(s)[p.len() as int] == s[i]);
        }
    } else {
        lemma_distinct_contains(s.drop_last(), i);
        let p = distinct_texts(s.drop_last());
        assert(s.drop_last()[i] == s[i]);
        let k = choose|k: int| 0 <= k < p.len() && p[k] == s[i];
        if !p.contains(s.last()) {
            assert(distinct_texts(s)[k] == s[i]);
        }
    }
}

} // verus!
