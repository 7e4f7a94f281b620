//! The shape of the model.

use vstd::prelude::*;

verus! {

/// The numbers that give a model its shape.
#[derive(Clone, Copy, Debug, PartialEq, Eq, Structural)]
pub struct GPTConfig {
    /// How many tokens there are.
    pub vocab_size: usize,
    /// How many tokens the model sees at most.
    pub max_context_len: usize,
    /// How many numbers stand for a token.
    pub embed_dim: usize,
    /// How many heads an attention layer has.
    pub n_head: usize,
    /// How many layers there are.
    pub n_layer: usize,
    /// How wide the hidden part of a feed-forward layer is.
    pub ff_dim: usize,
}

impl GPTConfig {
    /// The shape that is trained: a vocabulary of a thousand tokens, six layers of
    /// six heads.
    pub fn standard() -> (config: GPTConfig)
        ensures
            config == (GPTConfig {
                vocab_size: 1000,
                max_context_len: 256,
                embed_dim: 384,
                n_head: 6,
                n_layer: 6,
                ff_dim: 1536,
            }),
    {
        let embed_dim: usize = 384;
        GPTConfig {
            vocab_size: 1000,
            max_context_len: 256,
            embed_dim,
            n_head: 6,
            n_layer: 6,
            ff_dim: 4 * embed_dim,
        }
    }
}

/// How many numbers each head works on.
pub fn head_dim(embed_dim: usize, n_head: usize) -> (dim: usize)
    requires
        n_head > 0,
    ensures
        dim == embed_dim / n_head,
        n_head * dim <= embed_dim,
{
    proof {
        law_heads_share_the_embedding(embed_dim as int, n_head as int);
    }
    embed_dim / n_head
}

/// How many numbers all heads work on together.
pub fn attention_width(n_head: usize, head_dim: usize) -> (width: usize)
    requires
        n_head * head_dim <= usize::MAX,
    ensures
        width == n_head * head_dim,
{
    n_head * head_dim
}

/// How wide the hidden part of a feed-forward layer is: four times its input,
/// unless set otherwise.
pub fn hidden_dim(x_dim: usize, chosen: Option<usize>) -> (dim: usize)
    requires
        chosen is None ==> 4 * x_dim <= usize::MAX,
    ensures
        dim == match chosen {
            Some(dim) => dim as int,
            None => 4 * x_dim,
        },
{
    match chosen {
        Some(dim) => dim,
        None => 4 * x_dim,
    }
}

/// The heads of an attention layer never work on more numbers than stand for a
/// token, and on all of them where these can be dealt out evenly.
pub proof fn law_heads_share_the_embedding(embed_dim: int, n_head: int)
    requires
        0 <= embed_dim,
        0 < n_head,
    ensures
        n_head * (embed_dim / n_head) <= embed_dim,
        embed_dim % n_head == 0 ==> n_head * (embed_dim / n_head) == embed_dim,
{
    vstd::arithmetic::div_mod::lemma_fundamental_div_mod(embed_dim, n_head);
    vstd::arithmetic::div_mod::lemma_mod_bound(embed_dim, n_head);
}

} // verus!
