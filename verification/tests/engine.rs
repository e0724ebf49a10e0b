use stepsort::algorithms::AlgorithmType;
use stepsort::algorithms::bubble::BubbleSort;
use stepsort::algorithms::quick::QuickSort;

fn sorted_copy(v: &[i32]) -> Vec<i32> {
    let mut c = v.to_vec();
    c.sort();
    c
}

#[test]
fn names() {
    let bubble = AlgorithmType::BubbleSort(BubbleSort, None);
    let quick = AlgorithmType::QuickSort(QuickSort, None);
    assert_eq!(bubble.name(), "Bubble Sort");
    assert_eq!(quick.name(), "Quick Sort");
}

#[test]
fn step_without_state_is_complete_noop() {
    let mut bubble = AlgorithmType::BubbleSort(BubbleSort, None);
    assert!(bubble.step());
    assert_eq!(bubble.get_data(), Vec::<i32>::new());
    assert_eq!(bubble.get_current_indices(), Vec::<usize>::new());
    assert_eq!(bubble.get_comparisons(), Vec::<(usize, usize)>::new());

    let mut quick = AlgorithmType::QuickSort(QuickSort, None);
    assert!(quick.step());
    assert_eq!(quick.get_data(), Vec::<i32>::new());
}

#[test]
fn bubble_scenario_three_bars() {
    let mut algo = AlgorithmType::BubbleSort(BubbleSort, None);
    algo.reset_with_data(vec![3, 1, 2]);

    // step 1: compares (0, 1) and swaps
    assert!(!algo.step());
    assert_eq!(algo.get_comparisons(), vec![(0, 1)]);
    assert_eq!(algo.get_current_indices(), vec![0, 1]);
    assert_eq!(algo.get_data(), vec![1, 3, 2]);

    // step 2: compares (1, 2) and swaps
    assert!(!algo.step());
    assert_eq!(algo.get_comparisons(), vec![(1, 2)]);
    assert_eq!(algo.get_data(), vec![1, 2, 3]);

    // step 3: pass rollover, not yet complete
    assert!(!algo.step());
    assert_eq!(algo.get_comparisons(), Vec::<(usize, usize)>::new());
    assert_eq!(algo.get_data(), vec![1, 2, 3]);

    // step 4: compares (0, 1), no swap
    assert!(!algo.step());
    assert_eq!(algo.get_comparisons(), vec![(0, 1)]);
    assert_eq!(algo.get_data(), vec![1, 2, 3]);

    // step 5: rollover completes the run
    assert!(algo.step());
    assert_eq!(algo.get_comparisons(), Vec::<(usize, usize)>::new());
    assert_eq!(algo.get_current_indices(), Vec::<usize>::new());
    assert_eq!(algo.get_data(), vec![1, 2, 3]);
}

#[test]
fn quick_scenario_five_bars() {
    let mut algo = AlgorithmType::QuickSort(QuickSort, None);
    algo.reset_with_data(vec![5, 3, 8, 4, 2]);

    // step 1: announces the pivot, index 4 (value 2)
    assert!(!algo.step());
    assert_eq!(algo.get_current_indices(), vec![4]);
    assert_eq!(algo.get_comparisons(), Vec::<(usize, usize)>::new());
    assert_eq!(algo.get_data(), vec![5, 3, 8, 4, 2]);

    // steps 2-5: each element compared against the pivot; all exceed 2
    for j in 0..4 {
        assert!(!algo.step());
        assert_eq!(algo.get_comparisons(), vec![(j, 4)]);
        assert_eq!(algo.get_data(), vec![5, 3, 8, 4, 2]);
    }

    // step 6: pivot swaps into index 0; right sub-range [1, 4] remains
    assert!(!algo.step());
    assert_eq!(algo.get_data(), vec![2, 3, 8, 4, 5]);
    assert_eq!(algo.get_current_indices(), vec![0]);

    // the run continues until the array is fully sorted
    let mut steps = 0;
    while !algo.step() {
        steps += 1;
        assert!(steps < 100, "quick sort failed to finish");
    }
    assert_eq!(algo.get_data(), vec![2, 3, 4, 5, 8]);
    assert_eq!(algo.get_comparisons(), Vec::<(usize, usize)>::new());
    assert_eq!(algo.get_current_indices(), Vec::<usize>::new());
}

#[test]
fn trivial_inputs_start_complete() {
    for data in [Vec::<i32>::new(), vec![7]] {
        let mut bubble = AlgorithmType::BubbleSort(BubbleSort, None);
        bubble.reset_with_data(data.clone());
        assert!(bubble.step());
        assert_eq!(bubble.get_data(), data);
        assert_eq!(bubble.get_comparisons(), Vec::<(usize, usize)>::new());
        assert_eq!(bubble.get_current_indices(), Vec::<usize>::new());

        let mut quick = AlgorithmType::QuickSort(QuickSort, None);
        quick.reset_with_data(data.clone());
        assert!(quick.step());
        assert_eq!(quick.get_data(), data);
        assert_eq!(quick.get_comparisons(), Vec::<(usize, usize)>::new());
        assert_eq!(quick.get_current_indices(), Vec::<usize>::new());
    }
}

#[test]
fn both_algorithms_sort_and_permute() {
    let input = vec![9, 4, 6, 1, 1, 3, 8, -2, 0, 4];
    let expect = sorted_copy(&input);

    for mut algo in [
        AlgorithmType::BubbleSort(BubbleSort, None),
        AlgorithmType::QuickSort(QuickSort, None),
    ] {
        algo.reset_with_data(input.clone());
        let mut steps = 0;
        loop {
            // the array is a permutation of the input at every step
            assert_eq!(sorted_copy(&algo.get_data()), expect);
            if algo.step() {
                break;
            }
            steps += 1;
            assert!(steps < 1000, "run failed to finish");
        }
        assert_eq!(algo.get_data(), expect);
    }
}

#[test]
fn completion_is_monotonic() {
    let mut algo = AlgorithmType::BubbleSort(BubbleSort, None);
    algo.reset_with_data(vec![2, 1]);
    while !algo.step() {}
    let settled = algo.get_data();
    for _ in 0..5 {
        assert!(algo.step());
        assert_eq!(algo.get_data(), settled);
        assert_eq!(algo.get_comparisons(), Vec::<(usize, usize)>::new());
        assert_eq!(algo.get_current_indices(), Vec::<usize>::new());
    }

    let mut algo = AlgorithmType::QuickSort(QuickSort, None);
    algo.reset_with_data(vec![2, 1, 3]);
    while !algo.step() {}
    let settled = algo.get_data();
    for _ in 0..5 {
        assert!(algo.step());
        assert_eq!(algo.get_data(), settled);
        assert_eq!(algo.get_comparisons(), Vec::<(usize, usize)>::new());
        assert_eq!(algo.get_current_indices(), Vec::<usize>::new());
    }
}

#[test]
fn bubble_comparison_step_bound() {
    // a reversed array of length 6 needs every one of the
    // n * (n - 1) / 2 = 15 comparisons, and no more
    let mut algo = AlgorithmType::BubbleSort(BubbleSort, None);
    algo.reset_with_data(vec![6, 5, 4, 3, 2, 1]);
    let mut comparisons = 0;
    let mut steps = 0;
    loop {
        let done = algo.step();
        if !algo.get_comparisons().is_empty() {
            comparisons += 1;
        }
        if done {
            break;
        }
        steps += 1;
        assert!(steps < 1000, "run failed to finish");
    }
    assert_eq!(comparisons, 15);
    assert_eq!(algo.get_data(), vec![1, 2, 3, 4, 5, 6]);
}

#[test]
fn direct_stepper_api() {
    let bubble = BubbleSort;
    let mut state = bubble.initial_state(vec![2, 1]);
    assert!(!bubble.step(&mut state));
    assert_eq!(bubble.get_data(&state), vec![1, 2]);
    assert_eq!(bubble.get_comparisons(&state), vec![(0, 1)]);
    assert_eq!(bubble.get_current_indices(&state), vec![0, 1]);
    assert!(bubble.step(&mut state));

    let quick = QuickSort;
    let mut state = quick.initial_state(vec![2, 1]);
    assert!(!quick.step(&mut state));
    // pivot announced at index 1
    assert_eq!(quick.get_current_indices(&state), vec![1]);
    assert!(!quick.step(&mut state));
    // the one comparison: 2 against the pivot value 1, no swap
    assert_eq!(quick.get_comparisons(&state), vec![(0, 1)]);
    assert_eq!(quick.get_data(&state), vec![2, 1]);
    while !quick.step(&mut state) {}
    assert_eq!(quick.get_data(&state), vec![1, 2]);
}

#[test]
fn duplicate_heavy_input_sorts() {
    let input = vec![5, 5, 5, 1, 1, 5, 1];
    let expect = sorted_copy(&input);
    let mut algo = AlgorithmType::QuickSort(QuickSort, None);
    algo.reset_with_data(input);
    let mut steps = 0;
    while !algo.step() {
        steps += 1;
        assert!(steps < 1000, "run failed to finish");
    }
    assert_eq!(algo.get_data(), expect);
}
