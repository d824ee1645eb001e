use handcrafted::attention::{causal_mask_pattern, head_dim};
use handcrafted::generation::Generation;
use handcrafted::layers::{layer_parameters, mlp_layer_configs, LinearConfig};
use handcrafted::tokenizer::Tokenizer;

#[test]
fn causal_mask_of_four() {
    let m = causal_mask_pattern(4);
    let expected = vec![
        false, true, true, true,
        false, false, true, true,
        false, false, false, true,
        false, false, false, false,
    ];
    assert_eq!(m, expected);
    assert!(causal_mask_pattern(0).is_empty());
    assert_eq!(causal_mask_pattern(1), vec![false]);
}

#[test]
fn head_dim_splits_evenly() {
    assert_eq!(head_dim(128, 4), Some(32));
    assert_eq!(head_dim(4, 2), Some(2));
    assert_eq!(head_dim(10, 4), None);
    assert_eq!(head_dim(8, 0), None);
    assert_eq!(head_dim(0, 3), Some(0));
}

#[test]
fn linear_config_builder() {
    let c = LinearConfig::new(3, 4);
    assert_eq!((c.d_in, c.d_out, c.nonlin), (3, 4, false));
    let c = c.with_nonlin(true);
    assert_eq!((c.d_in, c.d_out, c.nonlin), (3, 4, true));
}

#[test]
fn mlp_layers_chain_and_last_is_linear() {
    let layers = mlp_layer_configs(3, &[4, 4, 1]);
    let shapes: Vec<(usize, usize, bool)> = layers.iter().map(|l| (l.d_in, l.d_out, l.nonlin)).collect();
    assert_eq!(shapes, vec![(3, 4, true), (4, 4, true), (4, 1, false)]);
    assert!(mlp_layer_configs(2, &[]).is_empty());
    let one = mlp_layer_configs(2, &[16]);
    assert_eq!((one[0].d_in, one[0].d_out, one[0].nonlin), (2, 16, false));
}

#[test]
fn generation_context_and_stop() {
    let t = Tokenizer::build_from_text("the cat sat on the mat");
    let mut g = Generation::start(&t, "the cat", 3);
    assert_eq!(g.tokens, vec![4, 5]);
    assert_eq!(g.context(8), Some(vec![4, 5]));
    assert!(g.feed(6));
    assert_eq!(g.context(2), Some(vec![5, 6]));
    assert!(!g.feed(t.eos_id()));
    assert!(g.stopped);
    assert_eq!(g.context(8), None);
    assert!(!g.feed(7));
    assert_eq!(t.decode(&g.tokens), "the cat sat");
}

#[test]
fn generation_uses_up_steps() {
    let t = Tokenizer::build_from_text("a b c");
    let mut g = Generation::start(&t, "b", 2);
    assert!(g.feed(4));
    assert!(g.feed(6));
    assert!(g.is_done());
    assert_eq!(g.context(5), None);
    assert_eq!(g.tokens, vec![5, 4, 6]);
}

#[test]
fn empty_prompt_starts_with_bos() {
    let t = Tokenizer::build_from_text("a b c");
    let g = Generation::start(&t, "?!", 1);
    assert_eq!(g.tokens, vec![t.bos_id()]);
    let g = Generation::start(&t, "zebra", 1);
    assert_eq!(g.tokens, vec![t.unk_id()]);
    assert_eq!(g.eos_id, Some(3));
}

#[test]
fn layer_parameters_rows_then_biases() {
    let weight = vec![vec![1, 2, 3], vec![4, 5, 6]];
    let bias = vec![7, 8];
    assert_eq!(layer_parameters(&weight, &bias), vec![1, 2, 3, 4, 5, 6, 7, 8]);
    assert_eq!(layer_parameters::<u8>(&vec![], &vec![]), Vec::<u8>::new());
}

#[test]
fn mlp_parameter_count() {
    // 3 inputs → [4, 4, 1]: 4·(3+1) + 4·(4+1) + 1·(4+1) = 41 parameters.
    let total: usize = mlp_layer_configs(3, &[4, 4, 1])
        .iter()
        .map(|c| layer_parameters(&vec![vec![0u8; c.d_in]; c.d_out], &vec![0u8; c.d_out]).len())
        .sum();
    assert_eq!(total, 41);
}
