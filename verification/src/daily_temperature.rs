use vstd::pervasive::VecAdditionalExecFns;
use vstd::prelude::*;

verus! {

/// Which of the two equivalent algorithms answers the query: a monotonic
/// stack sweeping forward, or a backward scan.
pub enum DailyTemperatureMode {
    Stack,
    Reverse,
}

impl DailyTemperatureMode {
    /// Mode names are exact; a caller must not pass any other string.
    pub fn from_str(s: &str) -> (r: DailyTemperatureMode)
        requires
            s@ == "Stack"@ || s@ == "Reverse"@,
        ensures
            s@ == "Stack"@ ==> r == DailyTemperatureMode::Stack,
            s@ == "Reverse"@ ==> r == DailyTemperatureMode::Reverse,
    {
        proof {
            reveal_strlit("Stack");
            reveal_strlit("Reverse");
            assert("Stack"@.len() != "Reverse"@.len());
        }
        let owned: String = s.to_owned();
        let stack_name: String = "Stack".to_owned();
        if owned == stack_name {
            DailyTemperatureMode::Stack
        } else {
            DailyTemperatureMode::Reverse
        }
    }
}

/// `r` is the right wait at day `i`: zero when no later day is warmer,
/// otherwise the distance to the first warmer day.
pub open spec fn answer_ok(temps: Seq<i32>, i: int, r: int) -> bool {
    if r == 0 {
        forall|j: int| i < j < temps.len() ==> temps[j] <= temps[i]
    } else {
        i + r < temps.len() && temps[i + r] > temps[i] && forall|j: int|
            i < j < i + r ==> temps[j] <= temps[i]
    }
}

/// For each day, how many days pass before a warmer one; 0 when none comes.
/// Both modes compute the same answer.
pub fn get_daily_temperature(temperatures: &Vec<i32>, mode: &String) -> (r: Result<
    Vec<usize>,
    String,
>)
    requires
        mode@ == "Stack"@ || mode@ == "Reverse"@,
    ensures
        ({
            &&& r matches Ok(answer)
            &&& answer@.len() == temperatures@.len()
            &&& forall|i: int|
                0 <= i < temperatures@.len() ==> answer_ok(
                    temperatures@,
                    i,
                    (#[trigger] answer@[i]) as int,
                )
        }),
{
    let n = temperatures.len();
    match DailyTemperatureMode::from_str(mode.as_str()) {
        DailyTemperatureMode::Stack => {
            let mut stack: Vec<usize> = Vec::new();
            let mut result: Vec<usize> = vec![0; n];
            proof {
                assert(forall|m: int| 0 <= m < n ==> (#[trigger] result@[m]) == 0);
            }
            let mut i: usize = 0;
            while i < n
                invariant
                    n == temperatures@.len(),
                    i <= n,
                    result@.len() == n,
                    forall|p: int, q: int| 0 <= p < q < stack@.len() ==> stack@[p] < stack@[q],
                    forall|p: int| 0 <= p < stack@.len() ==> (#[trigger] stack@[p]) < i,
                    forall|p: int, q: int|
                        0 <= p < q < stack@.len() ==> temperatures@[stack@[q] as int]
                            <= temperatures@[stack@[p] as int],
                    forall|p: int, j: int|
                        0 <= p < stack@.len() && (#[trigger] stack@[p]) < j < i
                            ==> (#[trigger] temperatures@[j]) <= temperatures@[stack@[p] as int],
                    forall|p: int| 0 <= p < stack@.len() ==> result@[#[trigger] stack@[p] as int] == 0,
                    forall|m: int| i <= m < n ==> (#[trigger] result@[m]) == 0,
                    forall|m: int|
                        0 <= m < i && !stack@.contains(m as usize) ==> answer_ok(
                            temperatures@,
                            m,
                            (#[trigger] result@[m]) as int,
                        ),
                decreases n - i,
            {
                while stack.len() > 0 && temperatures[i] > temperatures[stack[stack.len() - 1]]
                    invariant
                        n == temperatures@.len(),
                        i < n,
                        result@.len() == n,
                        forall|p: int, q: int| 0 <= p < q < stack@.len() ==> stack@[p] < stack@[q],
                        forall|p: int| 0 <= p < stack@.len() ==> (#[trigger] stack@[p]) < i,
                        forall|p: int, q: int|
                            0 <= p < q < stack@.len() ==> temperatures@[stack@[q] as int]
                                <= temperatures@[stack@[p] as int],
                        forall|p: int, j: int|
                            0 <= p < stack@.len() && (#[trigger] stack@[p]) < j < i
                                ==> (#[trigger] temperatures@[j]) <= temperatures@[stack@[p] as int],
                        forall|p: int|
                            0 <= p < stack@.len() ==> result@[#[trigger] stack@[p] as int] == 0,
                        forall|m: int| i <= m < n ==> (#[trigger] result@[m]) == 0,
                        forall|m: int|
                            0 <= m < i && !stack@.contains(m as usize) ==> answer_ok(
                                temperatures@,
                                m,
                                (#[trigger] result@[m]) as int,
                            ),
                    decreases stack@.len(),
                {
                    let ghost old_stack = stack@;
                    let index = stack.pop().unwrap();
                    result.set(index, i - index);
                    proof {
                        assert(old_stack[old_stack.len() - 1] == index);
                        assert(answer_ok(temperatures@, index as int, i - index)) by {
                            assert(temperatures@[index as int + (i - index)]
                                > temperatures@[index as int]);
                        }
                        assert forall|m: int|
                            0 <= m < i && !stack@.contains(m as usize) implies answer_ok(
                            temperatures@,
                            m,
                            (#[trigger] result@[m]) as int,
                        ) by {
                            if m != index {
                                if old_stack.contains(m as usize) {
                                    let p = choose|p: int|
                                        0 <= p < old_stack.len() && old_stack[p] == m as usize;
                                    assert(p < old_stack.len() - 1);
                                    assert(stack@[p] == m as usize);
                                    assert(stack@.contains(m as usize));
                                }
                            }
                        }
                    }
                }
                let ghost pre_push = stack@;
                stack.push(i);
                proof {
                    assert forall|p: int, q: int|
                        0 <= p < q < stack@.len() implies temperatures@[stack@[q] as int]
                        <= temperatures@[stack@[p] as int] by {
                        if q == stack@.len() - 1 && pre_push.len() > 0 {
                            assert(temperatures@[i as int]
                                <= temperatures@[pre_push[pre_push.len() - 1] as int]);
                        }
                    }
                    assert forall|p: int, j: int|
                        0 <= p < stack@.len() && (#[trigger] stack@[p]) < j < i + 1
                            implies (#[trigger] temperatures@[j]) <= temperatures@[stack@[p] as int] by {
                        if j == i && p < stack@.len() - 1 {
                            assert(temperatures@[i as int]
                                <= temperatures@[pre_push[pre_push.len() - 1] as int]);
                        }
                    }
                    assert forall|m: int|
                        0 <= m < i + 1 && !stack@.contains(m as usize) implies answer_ok(
                        temperatures@,
                        m,
                        (#[trigger] result@[m]) as int,
                    ) by {
                        assert(stack@[stack@.len() - 1] == i as usize);
                        if m < i {
                            if pre_push.contains(m as usize) {
                                let p = choose|p: int|
                                    0 <= p < pre_push.len() && pre_push[p] == m as usize;
                                assert(stack@[p] == m as usize);
                            }
                        }
                    }
                }
                i += 1;
            }
            proof {
                assert forall|m: int|
                    0 <= m < n implies answer_ok(
                    temperatures@,
                    m,
                    (#[trigger] result@[m]) as int,
                ) by {
                    if stack@.contains(m as usize) {
                        let p = choose|p: int| 0 <= p < stack@.len() && stack@[p] == m as usize;
                        assert(result@[stack@[p] as int] == 0);
                    }
                }
            }
            Ok(result)
        }
        DailyTemperatureMode::Reverse => {
            let mut result: Vec<usize> = vec![0; n];
            proof {
                assert(forall|m: int| 0 <= m < n ==> (#[trigger] result@[m]) == 0);
            }
            let mut i: usize = n;
            while i > 0
                invariant
                    n == temperatures@.len(),
                    i <= n,
                    result@.len() == n,
                    forall|m: int|
                        i <= m < n ==> answer_ok(temperatures@, m, (#[trigger] result@[m]) as int),
                    forall|m: int| 0 <= m < i ==> (#[trigger] result@[m]) == 0,
                decreases i,
            {
                i -= 1;
                let mut current_pointer: usize = i + 1;
                while current_pointer < n
                    invariant_except_break
                        n == temperatures@.len(),
                        i < n,
                        i < current_pointer <= n,
                        result@.len() == n,
                        result@[i as int] == 0,
                        forall|j: int|
                            i < j < current_pointer ==> temperatures@[j]
                                <= temperatures@[i as int],
                        forall|m: int|
                            i < m < n ==> answer_ok(
                                temperatures@,
                                m,
                                (#[trigger] result@[m]) as int,
                            ),
                        forall|m: int| 0 <= m < i ==> (#[trigger] result@[m]) == 0,
                    ensures
                        n == temperatures@.len(),
                        i < n,
                        result@.len() == n,
                        answer_ok(temperatures@, i as int, result@[i as int] as int),
                        forall|m: int|
                            i < m < n ==> answer_ok(
                                temperatures@,
                                m,
                                (#[trigger] result@[m]) as int,
                            ),
                        forall|m: int| 0 <= m < i ==> (#[trigger] result@[m]) == 0,
                    decreases n - current_pointer,
                {
                    if temperatures[current_pointer] > temperatures[i] {
                        result.set(i, current_pointer - i);
                        break;
                    }
                    if result[current_pointer] == 0 {
                        proof {
                            assert(answer_ok(
                                temperatures@,
                                current_pointer as int,
                                result@[current_pointer as int] as int,
                            ));
                            assert forall|j: int|
                                i < j < n implies temperatures@[j] <= temperatures@[i as int] by {
                                if j > current_pointer {
                                    assert(temperatures@[j]
                                        <= temperatures@[current_pointer as int]);
                                }
                            }
                        }
                        break;
                    }
                    current_pointer += 1;
                }
            }
            Ok(result)
        }
    }
}

} // verus!
