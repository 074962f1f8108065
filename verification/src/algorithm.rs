pub mod b_epsilon_tree;
