use hybrid_fusion::types::{
    Dtype, HybridConfig, ProjectionMode, TensorManifestEntry, TensorRole, TransformerConfig,
};

#[test]
fn tensor_role_default_is_other() {
    assert_eq!(TensorRole::default(), TensorRole::Other);
}

#[test]
fn tensor_role_from_name_router_gate() {
    assert_eq!(
        TensorRole::from_name("model.layers.0.block_sparse_moe.gate.weight"),
        TensorRole::Router
    );
    assert_eq!(
        TensorRole::from_name("model.layers.0.mlp.gate.weight"),
        TensorRole::Router
    );
    assert_eq!(
        TensorRole::from_name("model.layers.0.mlp.router.weight"),
        TensorRole::Router
    );
}

#[test]
fn tensor_role_from_name_expert_weight() {
    assert_eq!(
        TensorRole::from_name("model.layers.0.block_sparse_moe.experts.0.w1.weight"),
        TensorRole::ExpertWeight
    );
    // Expert components win over gate so SwiGLU-inside-expert is not Router.
    assert_eq!(
        TensorRole::from_name("model.layers.0.mlp.experts.3.gate_proj.weight"),
        TensorRole::ExpertWeight
    );
}

#[test]
fn tensor_role_from_name_attention() {
    assert_eq!(
        TensorRole::from_name("model.layers.0.self_attn.q_proj.weight"),
        TensorRole::Attention
    );
}

#[test]
fn tensor_role_from_name_unknown_and_ffn_gate_proj_are_other() {
    assert_eq!(
        TensorRole::from_name("model.layers.0.mlp.up_proj.weight"),
        TensorRole::Other
    );
    // Dense FFN SwiGLU gate — not an MoE router.
    assert_eq!(
        TensorRole::from_name("model.layers.0.mlp.gate_proj.weight"),
        TensorRole::Other
    );
}

#[test]
fn tensor_role_from_name_embedding_and_norm() {
    assert_eq!(
        TensorRole::from_name("model.embed_tokens.weight"),
        TensorRole::Embedding
    );
    assert_eq!(
        TensorRole::from_name("model.layers.0.input_layernorm.weight"),
        TensorRole::Norm
    );
}

#[test]
fn tensor_manifest_entry_new_infers_role() {
    let e = TensorManifestEntry::new(
        "model.layers.0.mlp.gate.weight".into(),
        Dtype::F16,
        vec![8, 16],
        Some("model-00001-of-00002.safetensors".into()),
        vec!["moe".into()],
    );
    assert_eq!(e.role, TensorRole::Router);
    assert_eq!(e.dtype, Dtype::F16);
    assert_eq!(e.shape, vec![8, 16]);
    assert_eq!(e.name, "model.layers.0.mlp.gate.weight");
    assert_eq!(e.shard.as_deref(), Some("model-00001-of-00002.safetensors"));
    assert_eq!(e.labels, vec!["moe".to_string()]);
}

#[test]
fn role_matching_ignores_case_and_respects_components() {
    assert_eq!(TensorRole::from_name("MODEL.MLP.GATE"), TensorRole::Router);
    assert_eq!(TensorRole::from_name("Shared_Expert.Gate"), TensorRole::ExpertWeight);
    assert_eq!(TensorRole::from_name("a.router_bias"), TensorRole::Router);
    assert_eq!(TensorRole::from_name("a.my_router"), TensorRole::Other);
    assert_eq!(TensorRole::from_name("a.gates"), TensorRole::Other);
    assert_eq!(TensorRole::from_name("blk.attention.x"), TensorRole::Attention);
    assert_eq!(TensorRole::from_name("blk.attentions.x"), TensorRole::Other);
    assert_eq!(TensorRole::from_name("blk.wq"), TensorRole::Attention);
    assert_eq!(TensorRole::from_name("blk.attn_q"), TensorRole::Attention);
    assert_eq!(TensorRole::from_name("token_embd"), TensorRole::Embedding);
    assert_eq!(TensorRole::from_name("tok_embeddings.weight"), TensorRole::Embedding);
    assert_eq!(TensorRole::from_name("lm_head.weight"), TensorRole::Embedding);
    assert_eq!(TensorRole::from_name("model.norm.weight"), TensorRole::Norm);
    assert_eq!(TensorRole::from_name(""), TensorRole::Other);
    assert_eq!(TensorRole::from_name("..."), TensorRole::Other);
}

#[test]
fn presets_hold_their_sizes() {
    let t = TransformerConfig::tiny();
    assert_eq!(
        (t.vocab_size, t.dim, t.num_heads, t.num_layers, t.ff_dim, t.max_seq_len),
        (256, 128, 4, 2, 256, 64)
    );
    let o = TransformerConfig::olmo_1b();
    assert_eq!(
        (o.vocab_size, o.dim, o.num_heads, o.num_layers, o.ff_dim, o.max_seq_len),
        (50304, 2048, 16, 22, 5504, 2048)
    );
    let h = HybridConfig::default();
    assert_eq!((h.snn_lif_neurons, h.snn_izh_neurons, h.snn_input_channels), (32, 8, 64));
    assert_eq!(h.transformer.dim, 128);
    let b = HybridConfig::olmo_1b();
    assert_eq!((b.snn_lif_neurons, b.snn_izh_neurons, b.snn_input_channels), (128, 32, 256));
    assert_eq!(b.transformer.vocab_size, 50304);
    assert_eq!(ProjectionMode::default(), ProjectionMode::RateSum);
}
