//! The population coordinator: owns the global innovation registry, the
//! population, the hyperparameters and the random source, and drives the
//! generation pipeline evaluate -> speciate -> share -> reproduce -> replace.

use vstd::prelude::*;

use crate::fixed::{in_range, SCALE};
use crate::genes::{Connection, Node, Type};
use crate::network::{lemma_wf_registry_growth, MutationParams, Network};
use crate::registry::Registry;
use crate::rng::{chance, rng_below, rng_from_seed};
use crate::species::{speciate, Species};

verus! {

/// Largest population size the coordinator accepts.
pub const CAP_POPULATION: usize = 1048576;

pub struct Neat {
    pub registry: Registry,
    pub population: Vec<Network>,
    pub network_fitnesses: Vec<i64>,
    pub rng: rand::rngs::StdRng,
    /// Weight and structural mutation settings.
    pub mutation: MutationParams,
    /// Probability (thousandths) of producing offspring by mutation alone.
    pub no_crossover_probablility: u64,
    /// Probability (thousandths) of drawing the second parent from another
    /// species.
    pub interspecies_mating_rate: u64,
    /// Coefficients of the compatibility distance, in fixed point.
    pub compatability_constant_1: i64,
    pub compatability_constant_2: i64,
    pub compatability_constant_3: i64,
    /// Distance below which an individual joins a species.
    pub minimum_speciation_distance: i64,
    /// A species larger than this carries its best member over unchanged.
    pub minimum_species_size_for_elitism: usize,
    /// Generations without improvement before the dominant species is
    /// removed from reproduction.
    pub stagnant_generation_limit: u32,
    pub current_best_fitness: i64,
    pub generations_since_last_improvement: u32,
}

/// The largest of the first `k` entries (`k >= 1`).
pub open spec fn max_upto(s: Seq<i64>, k: int) -> i64
    decreases k,
{
    if k <= 1 {
        s[0]
    } else {
        let m = max_upto(s, k - 1);
        if s[k - 1] > m {
            s[k - 1]
        } else {
            m
        }
    }
}

/// Elitism, stated over a grouping `views` (representative genes and member
/// lists) of the pre-generation population: every species except the one at
/// `skip` whose member count exceeds `min_size` has a highest-fitness member
/// whose genome survives unchanged into the post-generation population.
pub open spec fn elitism_clause(
    pre_pop: Seq<Network>,
    post_pop: Seq<Network>,
    fitnesses: Seq<i64>,
    views: Seq<(Seq<Connection>, Seq<usize>)>,
    min_size: int,
    skip: int,
) -> bool {
    forall|s: int|
        0 <= s < views.len() && s < pre_pop.len() && s != skip && (#[trigger] views[s]).1.len()
            > min_size ==> exists|bm: int, j: int|
            {
                &&& 0 <= j < post_pop.len()
                &&& 0 <= bm < views[s].1.len()
                &&& (#[trigger] post_pop[j]).connection_genes@ == pre_pop[(
                #[trigger] views[s].1[bm]) as int].connection_genes@
                &&& post_pop[j].node_genes@ == pre_pop[views[s].1[bm] as int].node_genes@
                &&& forall|t: int|
                    0 <= t < views[s].1.len() ==> fitnesses[(#[trigger] views[s].1[t]) as int]
                        <= fitnesses[views[s].1[bm] as int]
            }
}

impl Neat {
    /// The coordinator's invariant: a well-formed registry, a population of
    /// well-formed genomes against it, and hyperparameters in range.
    pub open spec fn wf(self) -> bool {
        &&& self.registry.wf()
        &&& self.registry.num_outputs >= 1
        &&& self.population@.len() <= CAP_POPULATION
        &&& forall|i: int|
            0 <= i < self.population@.len() ==> (#[trigger] self.population@[i]).wf(
                self.registry,
            )
        &&& self.mutation.wf()
        &&& self.no_crossover_probablility <= 1000
        &&& self.interspecies_mating_rate <= 1000
        &&& 0 <= self.compatability_constant_1 <= 1048576
        &&& 0 <= self.compatability_constant_2 <= 1048576
        &&& 0 <= self.compatability_constant_3 <= 1048576
        &&& self.minimum_species_size_for_elitism >= 1
    }

    /// Fresh coordinator with the default hyperparameters and a fixed seed.
    pub fn new(num_sensors: usize, num_outputs: usize) -> (r: Neat)
        requires
            num_sensors + num_outputs + 1 <= usize::MAX,
            num_outputs >= 1,
        ensures
            r.wf(),
            r.population@.len() == 0,
            r.network_fitnesses@.len() == 0,
            r.registry.num_sensors == num_sensors,
            r.registry.num_outputs == num_outputs,
            r.registry.node_innovation == num_sensors + num_outputs + 1,
            r.registry.connection_list@.len() == 0,
            r.registry.node_mutations@.len() == 0,
            r.mutation.weight_mutation_probability == 800,
            r.mutation.weight_randomization_probability == 100,
            r.mutation.weight_mutation_amount == 13107,
            r.mutation.node_mutation_probability == 30,
            r.mutation.connection_mutation_probability == 50,
            r.no_crossover_probablility == 250,
            r.interspecies_mating_rate == 1,
            r.compatability_constant_1 == SCALE,
            r.compatability_constant_2 == SCALE,
            r.compatability_constant_3 == 26214,
            r.minimum_speciation_distance == 3 * SCALE,
            r.minimum_species_size_for_elitism == 5,
            r.stagnant_generation_limit == 15,
            r.current_best_fitness == 0,
            r.generations_since_last_improvement == 0,
    {
        Self::new_with_seed(num_sensors, num_outputs, 0)
    }

    /// Fresh coordinator; all randomness of the run is drawn from the given
    /// seed, so runs are reproducible.
    pub fn new_with_seed(num_sensors: usize, num_outputs: usize, seed: u64) -> (r: Neat)
        requires
            num_sensors + num_outputs + 1 <= usize::MAX,
            num_outputs >= 1,
        ensures
            r.wf(),
            r.population@.len() == 0,
            r.network_fitnesses@.len() == 0,
            r.registry.num_sensors == num_sensors,
            r.registry.num_outputs == num_outputs,
            r.registry.node_innovation == num_sensors + num_outputs + 1,
            r.registry.connection_list@.len() == 0,
            r.registry.node_mutations@.len() == 0,
            r.mutation.weight_mutation_probability == 800,
            r.mutation.weight_randomization_probability == 100,
            r.mutation.weight_mutation_amount == 13107,
            r.mutation.node_mutation_probability == 30,
            r.mutation.connection_mutation_probability == 50,
            r.no_crossover_probablility == 250,
            r.interspecies_mating_rate == 1,
            r.compatability_constant_1 == SCALE,
            r.compatability_constant_2 == SCALE,
            r.compatability_constant_3 == 26214,
            r.minimum_speciation_distance == 3 * SCALE,
            r.minimum_species_size_for_elitism == 5,
            r.stagnant_generation_limit == 15,
            r.current_best_fitness == 0,
            r.generations_since_last_improvement == 0,
    {
        Neat {
            registry: Registry::new(num_sensors, num_outputs),
            population: Vec::new(),
            network_fitnesses: Vec::new(),
            rng: rng_from_seed(seed),
            mutation: MutationParams {
                weight_mutation_probability: 800,
                weight_randomization_probability: 100,
                weight_mutation_amount: 13107,
                node_mutation_probability: 30,
                connection_mutation_probability: 50,
            },
            no_crossover_probablility: 250,
            interspecies_mating_rate: 1,
            compatability_constant_1: SCALE,
            compatability_constant_2: SCALE,
            compatability_constant_3: 26214,
            minimum_speciation_distance: 3 * SCALE,
            minimum_species_size_for_elitism: 5,
            stagnant_generation_limit: 15,
            current_best_fitness: 0,
            generations_since_last_improvement: 0,
        }
    }

    /// Create `num_members` fresh genomes, all numbered against this run's
    /// shared registry.
    #[verifier::loop_isolation(false)]
    pub fn generate_population(&mut self, num_members: usize)
        requires
            old(self).wf(),
            old(self).population@.len() + num_members <= CAP_POPULATION,
        ensures
            final(self).wf(),
            final(self).population@.len() == old(self).population@.len() + num_members,
            final(self).network_fitnesses@ == old(self).network_fitnesses@,
            forall|i: int|
                0 <= i < old(self).population@.len() ==> final(self).population@[i] == old(self).population@[i],
            forall|i: int|
                old(self).population@.len() <= i < final(self).population@.len() ==> (
                #[trigger] final(self).population@[i]).node_genes@.len() == old(self).registry.num_sensors + old(self).registry.num_outputs + 1 && final(self).population@[i].connection_genes@.len() == 1,
    {
        let mut made: usize = 0;
        while made < num_members
            invariant
                made <= num_members,
                self.wf(),
                self.network_fitnesses@ == old(self).network_fitnesses@,
                forall|i: int|
                    0 <= i < old(self).population@.len() ==> self.population@[i] == old(self).population@[i],
                forall|i: int|
                    old(self).population@.len() <= i < self.population@.len() ==> (
                    #[trigger] self.population@[i]).node_genes@.len() == old(self).registry.num_sensors + old(self).registry.num_outputs + 1 && self.population@[
                        i
                    ].connection_genes@.len() == 1,
                self.population@.len() == old(self).population@.len() + made,
                self.registry.num_sensors == old(self).registry.num_sensors,
                self.registry.num_outputs == old(self).registry.num_outputs,
                self.mutation == old(self).mutation,
                self.no_crossover_probablility == old(self).no_crossover_probablility,
                self.interspecies_mating_rate == old(self).interspecies_mating_rate,
                self.compatability_constant_1 == old(self).compatability_constant_1,
                self.compatability_constant_2 == old(self).compatability_constant_2,
                self.compatability_constant_3 == old(self).compatability_constant_3,
                self.minimum_species_size_for_elitism == old(self).minimum_species_size_for_elitism,
            decreases num_members - made,
        {
            let ghost reg0 = self.registry;
            let ghost pop0 = self.population@;
            let new_network = Network::new(&mut self.registry, &mut self.rng);
            proof {
                assert forall|i: int|
                    0 <= i < pop0.len() implies (#[trigger] pop0[i]).wf(self.registry) by {
                    lemma_wf_registry_growth(pop0[i], reg0, self.registry);
                }
            }
            self.population.push(new_network);
            made = made + 1;
        }
    }

    /// Mutable access to one member of the population (the caller evaluates
    /// fitness through it).
    pub fn get_network(&mut self, network: usize) -> (r: &mut Network)
        requires
            network < old(self).population@.len(),
        ensures
            *r == old(self).population@[network as int],
            final(self).population@ == old(self).population@.update(
                network as int,
                *final(r),
            ),
            final(self).registry == old(self).registry,
            final(self).network_fitnesses == old(self).network_fitnesses,
    {
        &mut self.population[network]
    }

    /// The innovation id of the registered connection between the two nodes,
    /// if that pair was ever created in this run.
    pub fn find_connection(&self, input_node: usize, output_node: usize) -> (r: Option<usize>)
        requires
            self.wf(),
            input_node < self.registry.node_innovation,
        ensures
            match r {
                Some(id) => id < self.registry.connection_list@.len()
                    && self.registry.connection_list@[id as int].input == input_node
                    && self.registry.connection_list@[id as int].output == output_node,
                None => forall|i: int|
                    0 <= i < self.registry.connection_list@.len() ==> !((
                    #[trigger] self.registry.connection_list@[i]).input == input_node
                        && self.registry.connection_list@[i].output == output_node),
            },
    {
        self.registry.find_connection(input_node, output_node)
    }

    /// Record the fitness of each individual, as computed by the caller's
    /// fitness function, aligned with the population.
    pub fn calculate_fitnesses(&mut self, fitnesses: Vec<i64>)
        requires
            fitnesses@.len() == old(self).population@.len(),
        ensures
            final(self).network_fitnesses@ == fitnesses@,
            final(self).population@ == old(self).population@,
            final(self).registry == old(self).registry,
    {
        self.network_fitnesses = fitnesses;
    }

    /// The golden evaluation fixture: a 2-sensor, 1-bias, 1-output, 1-hidden
    /// network whose connections are (sensor0 -> output, 1.0),
    /// (sensor1 -> output, 1.0), (sensor0 -> hidden, 1.0),
    /// (sensor1 -> hidden, 1.0), (bias -> hidden, -1.0),
    /// (hidden -> output, -2.0).
    pub fn _get_xor_network() -> (net: Network)
        ensures
            net.num_sensors == 2,
            net.num_outputs == 1,
            net.node_genes@.len() == 5,
            net.connection_genes@.len() == 6,
            net.caches_clear(),
            forall|j: int|
                0 <= j < 5 ==> (#[trigger] net.node_genes@[j]).innovation == j,
            net.node_genes@[0].node_type == Type::Sensor,
            net.node_genes@[1].node_type == Type::Sensor,
            net.node_genes@[2].node_type == Type::Bias,
            net.node_genes@[3].node_type == Type::Output,
            net.node_genes@[4].node_type == Type::Hidden,
            net.connection_genes@[0] == (Connection {
                innovation: 0,
                input: 0,
                output: 3,
                weight: SCALE,
                enabled: true,
            }),
            net.connection_genes@[1] == (Connection {
                innovation: 1,
                input: 1,
                output: 3,
                weight: SCALE,
                enabled: true,
            }),
            net.connection_genes@[2] == (Connection {
                innovation: 2,
                input: 0,
                output: 4,
                weight: SCALE,
                enabled: true,
            }),
            net.connection_genes@[3] == (Connection {
                innovation: 3,
                input: 1,
                output: 4,
                weight: SCALE,
                enabled: true,
            }),
            net.connection_genes@[4] == (Connection {
                innovation: 4,
                input: 2,
                output: 4,
                weight: (-SCALE) as i64,
                enabled: true,
            }),
            net.connection_genes@[5] == (Connection {
                innovation: 5,
                input: 4,
                output: 3,
                weight: (-2 * SCALE) as i64,
                enabled: true,
            }),
            forall|i: int|
                0 <= i < 6 ==> in_range((#[trigger] net.connection_genes@[i]).weight as int),
    {
        let mut nodes: Vec<Node> = Vec::new();
        nodes.push(Node { innovation: 0, node_type: Type::Sensor, activation_value: None });
        nodes.push(Node { innovation: 1, node_type: Type::Sensor, activation_value: None });
        nodes.push(Node { innovation: 2, node_type: Type::Bias, activation_value: None });
        nodes.push(Node { innovation: 3, node_type: Type::Output, activation_value: None });
        nodes.push(Node { innovation: 4, node_type: Type::Hidden, activation_value: None });
        let mut genes: Vec<Connection> = Vec::new();
        genes.push(Connection { innovation: 0, input: 0, output: 3, weight: SCALE, enabled: true });
        genes.push(Connection { innovation: 1, input: 1, output: 3, weight: SCALE, enabled: true });
        genes.push(Connection { innovation: 2, input: 0, output: 4, weight: SCALE, enabled: true });
        genes.push(Connection { innovation: 3, input: 1, output: 4, weight: SCALE, enabled: true });
        genes.push(
            Connection { innovation: 4, input: 2, output: 4, weight: -SCALE, enabled: true },
        );
        genes.push(
            Connection { innovation: 5, input: 4, output: 3, weight: -2 * SCALE, enabled: true },
        );
        Network { node_genes: nodes, connection_genes: genes, num_sensors: 2, num_outputs: 1 }
    }
}

/// Division of a fitness value by a species size, rounding toward zero.
pub open spec fn share_div_spec(x: int, k: int) -> int {
    if x >= 0 {
        x / k
    } else {
        -((-x) / k)
    }
}

/// The offspring quota of one species: the population size scaled by the
/// species' share (in thousandths) of the grand clamped shared fitness; an
/// even share plus one when no species has positive shared fitness.
pub open spec fn quota_spec(total: int, grand: int, n: int, num_species: int) -> int {
    if grand > 0 {
        let sm = if total >= grand {
            1000int
        } else {
            total * 1000 / grand
        };
        n * sm / 1000
    } else {
        n / num_species + 1
    }
}

impl Neat {
    /// Fitness sharing: one individual's fitness divided by its species
    /// size, rounding toward zero.
    fn share_div(x: i64, k: usize) -> (r: i64)
        requires
            1 <= k <= CAP_POPULATION,
            in_range(x as int),
        ensures
            in_range(r as int),
            r == share_div_spec(x as int, k as int),
    {
        let d: i64 = k as i64;
        if x >= 0 {
            proof {
                assert(0 <= x / d <= x) by (nonlinear_arith)
                    requires
                        x >= 0,
                        d >= 1,
                ;
            }
            x / d
        } else {
            let y: i64 = -x;
            proof {
                assert(0 <= y / d <= y) by (nonlinear_arith)
                    requires
                        y >= 0,
                        d >= 1,
                ;
            }
            -(y / d)
        }
    }

    /// Fitness sharing over a grouping: each individual's fitness is divided
    /// by the size of its species (capped at the population size), rounding
    /// toward zero; an index outside every species keeps zero.
    #[verifier::loop_isolation(false)]
    pub fn share_fitnesses(fitnesses: &Vec<i64>, sp: &Vec<Species>) -> (shared: Vec<i64>)
        requires
            fitnesses@.len() <= CAP_POPULATION,
            forall|i: int| 0 <= i < fitnesses@.len() ==> in_range(#[trigger] fitnesses@[i] as int),
            forall|s: int, t: int|
                0 <= s < sp@.len() && 0 <= t < sp@[s].members@.len() ==> (
                #[trigger] sp@[s].members@[t]) < fitnesses@.len(),
            forall|s: int| 0 <= s < sp@.len() ==> (#[trigger] sp@[s]).members@.len() >= 1,
            forall|s1: int, t1: int, s2: int, t2: int|
                0 <= s1 < sp@.len() && 0 <= t1 < sp@[s1].members@.len() && 0 <= s2 < sp@.len()
                    && 0 <= t2 < sp@[s2].members@.len() && (s1 != s2 || t1 != t2)
                    ==> (#[trigger] sp@[s1].members@[t1]) != (#[trigger] sp@[s2].members@[t2]),
        ensures
            shared@.len() == fitnesses@.len(),
            forall|m: int| 0 <= m < shared@.len() ==> in_range(#[trigger] shared@[m] as int),
            forall|s: int, t: int|
                0 <= s < sp@.len() && 0 <= t < sp@[s].members@.len() ==> shared@[(
                #[trigger] sp@[s].members@[t]) as int] == share_div_spec(
                    fitnesses@[sp@[s].members@[t] as int] as int,
                    if sp@[s].members@.len() > fitnesses@.len() {
                        fitnesses@.len() as int
                    } else {
                        sp@[s].members@.len() as int
                    },
                ),
            forall|m: int|
                0 <= m < shared@.len() && !crate::species::in_some_species(sp@, m)
                    ==> shared@[m] == 0,
    {
        let n: usize = fitnesses.len();
        let mut shared: Vec<i64> = Vec::new();
        let mut i: usize = 0;
        while i < n
            invariant
                i <= n,
                shared@.len() == i,
                forall|m: int| 0 <= m < i ==> #[trigger] shared@[m] == 0,
            decreases n - i,
        {
            shared.push(0);
            i = i + 1;
        }
        let mut s: usize = 0;
        while s < sp.len()
            invariant
                s <= sp@.len(),
                shared@.len() == n,
                forall|m: int| 0 <= m < n ==> in_range(#[trigger] shared@[m] as int),
                forall|s1: int, t1: int|
                    0 <= s1 < s && 0 <= t1 < sp@[s1].members@.len() ==> shared@[(
                    #[trigger] sp@[s1].members@[t1]) as int] == share_div_spec(
                        fitnesses@[sp@[s1].members@[t1] as int] as int,
                        if sp@[s1].members@.len() > n {
                            n as int
                        } else {
                            sp@[s1].members@.len() as int
                        },
                    ),
                forall|m: int|
                    0 <= m < n && (forall|s1: int, t1: int|
                        0 <= s1 < s && 0 <= t1 < sp@[s1].members@.len() ==> (
                        #[trigger] sp@[s1].members@[t1]) != m) ==> #[trigger] shared@[m] == 0,
            decreases sp@.len() - s,
        {
            let size0: usize = sp[s].members.len();
            let size: usize = if size0 > n {
                n
            } else {
                size0
            };
            proof {
                assert(sp@[s as int].members@[0] < n);
            }
            let mut t: usize = 0;
            while t < sp[s].members.len()
                invariant
                    s < sp@.len(),
                    t <= sp@[s as int].members@.len(),
                    size0 == sp@[s as int].members@.len(),
                    size == if size0 > n {
                        n
                    } else {
                        size0
                    },
                    1 <= size <= n,
                    shared@.len() == n,
                    forall|m: int| 0 <= m < n ==> in_range(#[trigger] shared@[m] as int),
                    forall|s1: int, t1: int|
                        0 <= s1 < s && 0 <= t1 < sp@[s1].members@.len() ==> shared@[(
                        #[trigger] sp@[s1].members@[t1]) as int] == share_div_spec(
                            fitnesses@[sp@[s1].members@[t1] as int] as int,
                            if sp@[s1].members@.len() > n {
                                n as int
                            } else {
                                sp@[s1].members@.len() as int
                            },
                        ),
                    forall|t1: int|
                        0 <= t1 < t ==> shared@[(#[trigger] sp@[s as int].members@[t1]) as int]
                            == share_div_spec(
                            fitnesses@[sp@[s as int].members@[t1] as int] as int,
                            size as int,
                        ),
                    forall|m: int|
                        0 <= m < n && (forall|s1: int, t1: int|
                            0 <= s1 < s && 0 <= t1 < sp@[s1].members@.len() ==> (
                            #[trigger] sp@[s1].members@[t1]) != m) && (forall|t1: int|
                            0 <= t1 < t ==> (#[trigger] sp@[s as int].members@[t1]) != m)
                            ==> #[trigger] shared@[m] == 0,
                decreases sp@[s as int].members@.len() - t,
            {
                let m: usize = sp[s].members[t];
                let sv: i64 = Self::share_div(fitnesses[m], size);
                shared.set(m, sv);
                t = t + 1;
            }
            s = s + 1;
        }
        proof {
            assert forall|m: int|
                0 <= m < n && !crate::species::in_some_species(sp@, m) implies #[trigger] shared@[m]
                == 0 by {
                assert forall|s1: int, t1: int|
                    0 <= s1 < sp@.len() && 0 <= t1 < sp@[s1].members@.len() implies (
                #[trigger] sp@[s1].members@[t1]) != m by {
                    if sp@[s1].members@[t1] == m {
                        assert(crate::species::in_some_species(sp@, m));
                    }
                }
            }
        }
        shared
    }

    /// The offspring quota of one species; exactly [`quota_spec`].
    pub fn offspring_quota(total: i64, grand: i64, n: usize, num_species: usize) -> (q: usize)
        requires
            0 <= total <= 0x0020_0000_0000_0000,
            0 <= grand <= 0x0020_0000_0000_0000,
            1 <= n <= CAP_POPULATION,
            num_species >= 1,
        ensures
            q == quota_spec(total as int, grand as int, n as int, num_species as int),
            q <= n + 1,
    {
        if grand > 0 {
            let sm: i64 = if total >= grand {
                1000
            } else {
                proof {
                    assert(0 <= (total as int) * 1000 / (grand as int) <= 1000 && (total as int)
                        * 1000 <= 0x7d0a_3800_0000_0000) by (nonlinear_arith)
                        requires
                            0 <= (total as int) < (grand as int),
                            (grand as int) >= 1,
                            (total as int) <= 0x0020_0000_0000_0000,
                    ;
                }
                total * 1000 / grand
            };
            proof {
                assert(0 <= (n as int) * (sm as int) / 1000 <= n as int) by (nonlinear_arith)
                    requires
                        0 <= (sm as int) <= 1000,
                        1 <= (n as int) <= CAP_POPULATION as int,
                ;
            }
            ((n as i64) * sm / 1000) as usize
        } else {
            n / num_species + 1
        }
    }

    /// The species holding the population's best performer (the dominant
    /// lineage that stagnation removes), or the species count when none
    /// holds it.
    #[verifier::loop_isolation(false)]
    pub fn stagnant_species_of(sp: &Vec<Species>, best_idx: usize) -> (r: usize)
        ensures
            r == sp@.len() || (r < sp@.len() && exists|t: int|
                0 <= t < sp@[r as int].members@.len() && sp@[r as int].members@[t] == best_idx),
    {
        let mut found: usize = sp.len();
        let mut s: usize = 0;
        while s < sp.len()
            invariant
                s <= sp@.len(),
                found == sp@.len() || (found < sp@.len() && exists|t: int|
                    0 <= t < sp@[found as int].members@.len() && sp@[found as int].members@[t]
                        == best_idx),
            decreases sp@.len() - s,
        {
            let mut t: usize = 0;
            while t < sp[s].members.len()
                invariant
                    s < sp@.len(),
                    t <= sp@[s as int].members@.len(),
                    found == sp@.len() || (found < sp@.len() && exists|t1: int|
                        0 <= t1 < sp@[found as int].members@.len() && sp@[found as int].members@[
                            t1
                        ] == best_idx),
                decreases sp@[s as int].members@.len() - t,
            {
                if sp[s].members[t] == best_idx {
                    found = s;
                    proof {
                        assert(sp@[s as int].members@[t as int] == best_idx);
                    }
                }
                t = t + 1;
            }
            s = s + 1;
        }
        found
    }

    /// Roulette selection within one species: a member index, drawn with a
    /// weight that grows with its shared fitness (quantized to whole
    /// fitness units, floored at one so every member keeps a chance, and
    /// capped at 1024; the total saturates far beyond any real population).
    #[verifier::loop_isolation(false)]
    fn roulette(members: &Vec<usize>, shared: &Vec<i64>, rng: &mut rand::rngs::StdRng) -> (r:
        usize)
        requires
            1 <= members@.len(),
            forall|t: int| 0 <= t < members@.len() ==> #[trigger] members@[t] < shared@.len(),
            forall|i: int| 0 <= i < shared@.len() ==> in_range(#[trigger] shared@[i] as int),
        ensures
            exists|t: int| 0 <= t < members@.len() && #[trigger] members@[t] == r,
    {
        let mut total: i64 = 0;
        let mut t: usize = 0;
        while t < members.len()
            invariant
                t <= members@.len(),
                0 <= total <= 0x4000_0000,
            decreases members@.len() - t,
        {
            let w: i64 = shared[members[t]];
            let q: i64 = if w > 0 {
                let q0: i64 = w / SCALE + 1;
                if q0 > 1024 {
                    1024
                } else {
                    proof {
                        assert(0 <= w / SCALE) by (nonlinear_arith)
                            requires
                                w > 0,
                        ;
                    }
                    q0
                }
            } else {
                1
            };
            if total <= 0x4000_0000 - q {
                total = total + q;
            }
            t = t + 1;
        }
        if total < 1 {
            let i: usize = rng_below(rng, members.len());
            return members[i];
        }
        let draw: usize = rng_below(rng, total as usize);
        let mut acc: i64 = 0;
        let mut t: usize = 0;
        while t + 1 < members.len()
            invariant
                t < members@.len(),
                0 <= acc <= 0x4000_0000,
            decreases members@.len() - t,
        {
            let w: i64 = shared[members[t]];
            let q: i64 = if w > 0 {
                let q0: i64 = w / SCALE + 1;
                if q0 > 1024 {
                    1024
                } else {
                    proof {
                        assert(0 <= w / SCALE) by (nonlinear_arith)
                            requires
                                w > 0,
                        ;
                    }
                    q0
                }
            } else {
                1
            };
            if acc <= 0x4000_0000 - q {
                acc = acc + q;
            }
            if acc > draw as i64 {
                return members[t];
            }
            t = t + 1;
        }
        members[members.len() - 1]
    }

    /// The member with the highest recorded fitness (the species champion
    /// that elitism carries over).
    #[verifier::loop_isolation(false)]
    fn best_of(members: &Vec<usize>, fitnesses: &Vec<i64>) -> (r: usize)
        requires
            members@.len() >= 1,
            forall|t: int| 0 <= t < members@.len() ==> #[trigger] members@[t] < fitnesses@.len(),
        ensures
            exists|t: int| 0 <= t < members@.len() && #[trigger] members@[t] == r,
            forall|t: int|
                0 <= t < members@.len() ==> fitnesses@[#[trigger] members@[t] as int]
                    <= fitnesses@[r as int],
    {
        let mut best: usize = members[0];
        let mut best_fit: i64 = fitnesses[best];
        let mut t: usize = 1;
        while t < members.len()
            invariant
                1 <= t <= members@.len(),
                best < fitnesses@.len(),
                best_fit == fitnesses@[best as int],
                exists|u: int| 0 <= u < members@.len() && #[trigger] members@[u] == best,
                forall|u: int|
                    0 <= u < t ==> fitnesses@[#[trigger] members@[u] as int] <= best_fit,
            decreases members@.len() - t,
        {
            let m: usize = members[t];
            if fitnesses[m] > best_fit {
                best = m;
                best_fit = fitnesses[m];
            }
            t = t + 1;
        }
        best
    }

    /// Elitism: every species except a skipped one that is larger than
    /// `min_size` carries its best member forward unchanged. Species are
    /// served in order, each capped by the room left below `n`; since at
    /// most one genome is taken per species, every eligible species with
    /// index below `n` is guaranteed its champion.
    #[verifier::loop_isolation(false)]
    fn push_elites(
        population: &Vec<Network>,
        fitnesses: &Vec<i64>,
        sp: &Vec<Species>,
        reg: &Registry,
        skip: usize,
        min_size: usize,
        n: usize,
    ) -> (elites: Vec<Network>)
        requires
            population@.len() == n,
            fitnesses@.len() == n,
            forall|i: int|
                0 <= i < population@.len() ==> (#[trigger] population@[i]).wf(*reg),
            forall|s: int, t: int|
                0 <= s < sp@.len() && 0 <= t < sp@[s].members@.len() ==> (
                #[trigger] sp@[s].members@[t]) < n,
            forall|s: int| 0 <= s < sp@.len() ==> (#[trigger] sp@[s]).members@.len() >= 1,
        ensures
            elites@.len() <= n,
            forall|j: int| 0 <= j < elites@.len() ==> (#[trigger] elites@[j]).wf(*reg),
            forall|s: int|
                0 <= s < sp@.len() && s < n && s != skip && (#[trigger] sp@[s]).members@.len()
                    > min_size ==> exists|bm: int, j: int|
                    {
                        &&& 0 <= j < elites@.len()
                        &&& 0 <= bm < sp@[s].members@.len()
                        &&& (#[trigger] elites@[j]).connection_genes@ == population@[(
                        #[trigger] sp@[s].members@[bm]) as int].connection_genes@
                        &&& elites@[j].node_genes@ == population@[
                            sp@[s].members@[bm] as int
                        ].node_genes@
                        &&& forall|t: int|
                            0 <= t < sp@[s].members@.len() ==> fitnesses@[(
                            #[trigger] sp@[s].members@[t]) as int] <= fitnesses@[
                                sp@[s].members@[bm] as int
                            ]
                    },
    {
        let mut elites: Vec<Network> = Vec::new();
        let mut s: usize = 0;
        while s < sp.len()
            invariant
                s <= sp@.len(),
                elites@.len() <= s,
                elites@.len() <= n,
                forall|j: int| 0 <= j < elites@.len() ==> (#[trigger] elites@[j]).wf(*reg),
                forall|s1: int|
                    0 <= s1 < s && s1 < n && s1 != skip && (#[trigger] sp@[s1]).members@.len()
                        > min_size ==> exists|bm: int, j: int|
                        {
                            &&& 0 <= j < elites@.len()
                            &&& 0 <= bm < sp@[s1].members@.len()
                            &&& (#[trigger] elites@[j]).connection_genes@ == population@[(
                            #[trigger] sp@[s1].members@[bm]) as int].connection_genes@
                            &&& elites@[j].node_genes@ == population@[
                                sp@[s1].members@[bm] as int
                            ].node_genes@
                            &&& forall|t: int|
                                0 <= t < sp@[s1].members@.len() ==> fitnesses@[(
                                #[trigger] sp@[s1].members@[t]) as int] <= fitnesses@[
                                    sp@[s1].members@[bm] as int
                                ]
                        },
            decreases sp@.len() - s,
        {
            let ghost pre = elites@;
            if s != skip && sp[s].members.len() > min_size && elites.len() < n {
                let bm: usize = Self::best_of(&sp[s].members, fitnesses);
                let elite = population[bm].copy();
                proof {
                    assert(elite.wf(*reg));
                }
                elites.push(elite);
                proof {
                    let bmi = choose|u: int|
                        0 <= u < sp@[s as int].members@.len() && #[trigger] sp@[s as int].members@[u]
                            == bm;
                    assert(elites@[elites@.len() - 1].connection_genes@ == population@[
                        sp@[s as int].members@[bmi] as int
                    ].connection_genes@);
                }
            }
            proof {
                assert(forall|j: int| 0 <= j < pre.len() ==> elites@[j] == pre[j]);
            }
            s = s + 1;
        }
        elites
    }

    /// One generation: speciate the population ([`speciate`]), share fitness
    /// within each species ([`Neat::share_fitnesses`]), allocate offspring to
    /// species in proportion to their shared fitness
    /// ([`Neat::offspring_quota`]), carry the best member of a large species
    /// over unchanged, remove the dominant species from reproduction after
    /// prolonged stagnation ([`Neat::stagnant_species_of`]), and replace the
    /// population with the offspring. The caller supplies the fitness vector
    /// its fitness function produced for the current population.
    #[verifier::loop_isolation(false)]
    #[verifier::rlimit(100)]
    pub fn next_generation(&mut self, fitnesses: Vec<i64>)
        requires
            old(self).wf(),
            1 <= old(self).population@.len(),
            fitnesses@.len() == old(self).population@.len(),
            forall|i: int| 0 <= i < fitnesses@.len() ==> in_range(#[trigger] fitnesses@[i] as int),
        ensures
            final(self).wf(),
            final(self).population@.len() == old(self).population@.len(),
            final(self).network_fitnesses@ == fitnesses@,
            ({
                let best = max_upto(fitnesses@, fitnesses@.len() as int);
                &&& final(self).current_best_fitness == if best > old(self).current_best_fitness {
                    best
                } else {
                    old(self).current_best_fitness
                }
                &&& final(self).generations_since_last_improvement == if best > old(self).current_best_fitness {
                    0u32
                } else if old(self).generations_since_last_improvement < u32::MAX {
                    (old(self).generations_since_last_improvement + 1) as u32
                } else {
                    old(self).generations_since_last_improvement
                }
            }),
            final(self).mutation == old(self).mutation,
            final(self).registry.num_sensors == old(self).registry.num_sensors,
            final(self).registry.num_outputs == old(self).registry.num_outputs,
            old(self).registry.connection_list@.len()
                <= final(self).registry.connection_list@.len(),
            forall|i: int|
                0 <= i < old(self).registry.connection_list@.len() ==> final(self).registry.connection_list@[i] == old(self).registry.connection_list@[i],
            ({
                // elitism: except in a stagnation generation (where the
                // dominant species is removed from reproduction), every
                // species of the grouping that exceeds the elitism minimum
                // carries a highest-fitness member into the new population
                // unchanged
                let views = crate::species::speciate_from(
                    old(self).population@,
                    old(self).compatability_constant_1 as int,
                    old(self).compatability_constant_2 as int,
                    old(self).compatability_constant_3 as int,
                    old(self).minimum_speciation_distance as int,
                    0,
                    Seq::empty(),
                );
                exists|skip: int|
                    {
                        &&& 0 <= skip <= views.len()
                        &&& (final(self).generations_since_last_improvement <= old(
                            self,
                        ).stagnant_generation_limit ==> skip == views.len())
                        &&& #[trigger] elitism_clause(
                            old(self).population@,
                            final(self).population@,
                            fitnesses@,
                            views,
                            old(self).minimum_species_size_for_elitism as int,
                            skip,
                        )
                    }
            }),
    {
        let n: usize = self.population.len();
        self.network_fitnesses = fitnesses;

        // speciate
        let sp: Vec<Species> = speciate(
            &self.population,
            self.compatability_constant_1,
            self.compatability_constant_2,
            self.compatability_constant_3,
            self.minimum_speciation_distance,
        );
        proof {
            assert(crate::species::in_some_species(sp@, 0));
            assert(sp@.len() >= 1);
        }

        // fitness sharing (exactly specified at share_fitnesses)
        let shared: Vec<i64> = Self::share_fitnesses(&self.network_fitnesses, &sp);

        // stagnation bookkeeping
        let mut best_idx: usize = 0;
        let mut i: usize = 1;
        while i < n
            invariant
                1 <= i <= n,
                best_idx < n,
                self.network_fitnesses@.len() == n,
                self.network_fitnesses@ == fitnesses@,
                self.network_fitnesses@[best_idx as int] == max_upto(fitnesses@, i as int),
            decreases n - i,
        {
            if self.network_fitnesses[i] > self.network_fitnesses[best_idx] {
                best_idx = i;
            }
            i = i + 1;
        }
        if self.network_fitnesses[best_idx] > self.current_best_fitness {
            self.current_best_fitness = self.network_fitnesses[best_idx];
            self.generations_since_last_improvement = 0;
        } else if self.generations_since_last_improvement < u32::MAX {
            self.generations_since_last_improvement = self.generations_since_last_improvement
                + 1;
        }
        let ghost cb_after = self.current_best_fitness;
        let ghost gs_after = self.generations_since_last_improvement;
        // out of range when nothing is stagnant: skip no species
        let skip_species: usize = if self.generations_since_last_improvement
            > self.stagnant_generation_limit {
            Self::stagnant_species_of(&sp, best_idx)
        } else {
            sp.len()
        };

        // per-species totals of clamped shared fitness
        let mut totals: Vec<i64> = Vec::new();
        let mut grand: i64 = 0;
        let mut s: usize = 0;
        while s < sp.len()
            invariant
                s <= sp@.len(),
                totals@.len() == s,
                shared@.len() == n,
                n <= CAP_POPULATION,
                0 <= grand <= 0x0020_0000_0000_0000,
                forall|u: int| 0 <= u < s ==> 0 <= #[trigger] totals@[u] <= grand,
            decreases sp@.len() - s,
        {
            let mut tot: i64 = 0;
            let mut t: usize = 0;
            while t < sp[s].members.len()
                invariant
                    s < sp@.len(),
                    t <= sp@[s as int].members@.len(),
                    shared@.len() == n,
                    0 <= tot <= 0x0010_0000_0000_0000,
                decreases sp@[s as int].members@.len() - t,
            {
                let m: usize = sp[s].members[t];
                let w: i64 = shared[m];
                if w > 0 && tot <= 0x0010_0000_0000_0000 - w {
                    tot = tot + w;
                }
                t = t + 1;
            }
            if skip_species == s {
                totals.push(0);
            } else {
                if grand > 0x0010_0000_0000_0000 {
                    // saturate rather than overflow (far beyond any real run)
                    totals.push(0);
                } else {
                    grand = grand + tot;
                    totals.push(tot);
                    proof {
                        assert forall|u: int| 0 <= u < s + 1 implies 0 <= #[trigger] totals@[u]
                            <= grand by {
                            if u < s {
                                assert(totals@[u] <= grand - tot);
                            }
                        }
                    }
                }
            }
            s = s + 1;
        }

        // reproduce: elites first (each eligible species' champion), then
        // quota-driven offspring
        let params: MutationParams = self.mutation;
        let mut new_pop: Vec<Network> = Self::push_elites(
            &self.population,
            &self.network_fitnesses,
            &sp,
            &self.registry,
            skip_species,
            self.minimum_species_size_for_elitism,
            n,
        );
        let ghost elites0 = new_pop@;
        let ghost pop0 = self.population@;
        let mut s: usize = 0;
        while s < sp.len()
            invariant
                s <= sp@.len(),
                self.wf(),
                self.population@ == pop0,
                self.population@.len() == n,
                1 <= n <= CAP_POPULATION,
                self.network_fitnesses@ == fitnesses@,
                self.network_fitnesses@.len() == n,
                shared@.len() == n,
                totals@.len() == sp@.len(),
                self.current_best_fitness == cb_after,
                self.generations_since_last_improvement == gs_after,
                self.registry.num_sensors == old(self).registry.num_sensors,
                self.registry.num_outputs == old(self).registry.num_outputs,
                old(self).registry.connection_list@.len()
                    <= self.registry.connection_list@.len(),
                forall|ci: int|
                    0 <= ci < old(self).registry.connection_list@.len()
                        ==> self.registry.connection_list@[ci] == old(self).registry.connection_list@[ci],

                params == self.mutation,
                new_pop@.len() <= n,
                forall|j: int| 0 <= j < elites0.len() ==> #[trigger] new_pop@[j] == elites0[j],
                new_pop@.len() >= elites0.len(),
                forall|u: int|
                    0 <= u < new_pop@.len() ==> (#[trigger] new_pop@[u]).wf(self.registry),
                forall|st: int, t: int|
                    0 <= st < sp@.len() && 0 <= t < sp@[st].members@.len() ==> (
                    #[trigger] sp@[st].members@[t]) < n,
                forall|st: int|
                    0 <= st < sp@.len() ==> (#[trigger] sp@[st]).members@.len() >= 1,
                forall|u: int| 0 <= u < n ==> in_range(#[trigger] shared@[u] as int),
            decreases sp@.len() - s,
        {
            if s != skip_species {
                let quota: usize = Self::offspring_quota(totals[s], grand, n, sp.len());
                let mut produced: usize = 0;
                while produced < quota && new_pop.len() < n
                    invariant
                        s < sp@.len(),
                        produced <= quota,
                        self.wf(),
                        self.population@ == pop0,
                        self.population@.len() == n,
                        1 <= n <= CAP_POPULATION,
                        self.network_fitnesses@ == fitnesses@,
                        self.network_fitnesses@.len() == n,
                        shared@.len() == n,
                        params == self.mutation,
                        self.current_best_fitness == cb_after,
                        self.generations_since_last_improvement == gs_after,
                        self.registry.num_sensors == old(self).registry.num_sensors,
                        self.registry.num_outputs == old(self).registry.num_outputs,
                        old(self).registry.connection_list@.len()
                            <= self.registry.connection_list@.len(),
                        forall|ci: int|
                            0 <= ci < old(self).registry.connection_list@.len()
                                ==> self.registry.connection_list@[ci] == old(self).registry.connection_list@[ci],

                        new_pop@.len() <= n,
                        forall|j: int|
                            0 <= j < elites0.len() ==> #[trigger] new_pop@[j] == elites0[j],
                        new_pop@.len() >= elites0.len(),
                        forall|u: int|
                            0 <= u < new_pop@.len() ==> (#[trigger] new_pop@[u]).wf(
                                self.registry,
                            ),
                        forall|st: int, t: int|
                            0 <= st < sp@.len() && 0 <= t < sp@[st].members@.len() ==> (
                            #[trigger] sp@[st].members@[t]) < n,
                        forall|st: int|
                            0 <= st < sp@.len() ==> (#[trigger] sp@[st]).members@.len() >= 1,
                        forall|u: int| 0 <= u < n ==> in_range(#[trigger] shared@[u] as int),
                    decreases quota - produced,
                {
                    let p1: usize = Self::roulette(&sp[s].members, &shared, &mut self.rng);
                    let interspecies: bool = chance(&mut self.rng, self.interspecies_mating_rate)
                        && sp.len() >= 2;
                    let p2: usize = if interspecies {
                        let mut os: usize = rng_below(&mut self.rng, sp.len());
                        if os == s {
                            os = if os + 1 < sp.len() {
                                os + 1
                            } else {
                                0
                            };
                        }
                        let ot: usize = rng_below(&mut self.rng, sp[os].members.len());
                        sp[os].members[ot]
                    } else {
                        Self::roulette(&sp[s].members, &shared, &mut self.rng)
                    };
                    let ghost regp = self.registry;
                    let ghost npp = new_pop@;
                    let child: Network = if chance(&mut self.rng, self.no_crossover_probablility) {
                        let mut c = self.population[p1].copy();
                        proof {
                            assert(c.wf(self.registry));
                        }
                        c.mutate_network(&mut self.registry, &mut self.rng, params);
                        c
                    } else {
                        self.population[p1].cross(
                            &self.population[p2],
                            &mut self.registry,
                            &mut self.rng,
                            params,
                        )
                    };
                    proof {
                        assert forall|u: int|
                            0 <= u < pop0.len() implies (#[trigger] pop0[u]).wf(
                            self.registry,
                        ) by {
                            lemma_wf_registry_growth(pop0[u], regp, self.registry);
                        }
                        assert forall|u: int|
                            0 <= u < npp.len() implies (#[trigger] npp[u]).wf(self.registry) by {
                            lemma_wf_registry_growth(npp[u], regp, self.registry);
                        }
                    }
                    new_pop.push(child);
                    produced = produced + 1;
                }
            }
            s = s + 1;
        }

        // top up to the exact population size
        while new_pop.len() < n
            invariant
                self.wf(),
                self.population@ == pop0,
                self.population@.len() == n,
                1 <= n <= CAP_POPULATION,
                self.network_fitnesses@ == fitnesses@,
                params == self.mutation,
                self.current_best_fitness == cb_after,
                self.generations_since_last_improvement == gs_after,
                self.registry.num_sensors == old(self).registry.num_sensors,
                self.registry.num_outputs == old(self).registry.num_outputs,
                old(self).registry.connection_list@.len()
                    <= self.registry.connection_list@.len(),
                forall|ci: int|
                    0 <= ci < old(self).registry.connection_list@.len()
                        ==> self.registry.connection_list@[ci] == old(self).registry.connection_list@[ci],
                new_pop@.len() <= n,
                forall|j: int| 0 <= j < elites0.len() ==> #[trigger] new_pop@[j] == elites0[j],
                new_pop@.len() >= elites0.len(),
                forall|u: int|
                    0 <= u < new_pop@.len() ==> (#[trigger] new_pop@[u]).wf(self.registry),
            decreases n - new_pop@.len(),
        {
            let p1: usize = rng_below(&mut self.rng, n);
            let ghost regp = self.registry;
            let ghost npp = new_pop@;
            let mut c = self.population[p1].copy();
            proof {
                assert(c.wf(self.registry));
            }
            c.mutate_network(&mut self.registry, &mut self.rng, params);
            proof {
                assert forall|u: int|
                    0 <= u < pop0.len() implies (#[trigger] pop0[u]).wf(self.registry) by {
                    lemma_wf_registry_growth(pop0[u], regp, self.registry);
                }
                assert forall|u: int|
                    0 <= u < npp.len() implies (#[trigger] npp[u]).wf(self.registry) by {
                    lemma_wf_registry_growth(npp[u], regp, self.registry);
                }
            }
            new_pop.push(c);
        }

        self.population = new_pop;
        proof {
            // the elitism clause, witnessed by the skipped species
            assert(crate::species::species_views(sp@) == crate::species::speciate_from(
                pop0,
                old(self).compatability_constant_1 as int,
                old(self).compatability_constant_2 as int,
                old(self).compatability_constant_3 as int,
                old(self).minimum_speciation_distance as int,
                0,
                Seq::empty(),
            ));
            let views = crate::species::species_views(sp@);
            assert(views.len() == sp@.len());
            assert forall|s: int|
                0 <= s < views.len() && s < pop0.len() && s != skip_species && (
                #[trigger] views[s]).1.len() > old(self).minimum_species_size_for_elitism
                implies exists|bm: int, j: int|
                {
                    &&& 0 <= j < self.population@.len()
                    &&& 0 <= bm < views[s].1.len()
                    &&& (#[trigger] self.population@[j]).connection_genes@ == pop0[(
                    #[trigger] views[s].1[bm]) as int].connection_genes@
                    &&& self.population@[j].node_genes@ == pop0[
                        views[s].1[bm] as int
                    ].node_genes@
                    &&& forall|t: int|
                        0 <= t < views[s].1.len() ==> fitnesses@[(
                        #[trigger] views[s].1[t]) as int] <= fitnesses@[views[s].1[bm] as int]
                } by {
                assert(views[s].1 == sp@[s].members@);
                let (bm, j): (int, int) = choose|bm: int, j: int|
                    {
                        &&& 0 <= j < elites0.len()
                        &&& 0 <= bm < sp@[s].members@.len()
                        &&& (#[trigger] elites0[j]).connection_genes@ == pop0[(
                        #[trigger] sp@[s].members@[bm]) as int].connection_genes@
                        &&& elites0[j].node_genes@ == pop0[
                            sp@[s].members@[bm] as int
                        ].node_genes@
                        &&& forall|t: int|
                            0 <= t < sp@[s].members@.len() ==> fitnesses@[(
                            #[trigger] sp@[s].members@[t]) as int] <= fitnesses@[
                                sp@[s].members@[bm] as int
                            ]
                    };
                assert(self.population@[j] == elites0[j]);
            }
            assert(elitism_clause(
                pop0,
                self.population@,
                fitnesses@,
                views,
                old(self).minimum_species_size_for_elitism as int,
                skip_species as int,
            ));
        }
    }
}

} // verus!
