//! The client (secret) key and the server (evaluation) key.
use crate::boolean::FheBoolParameters;
use crate::bootstrap::{bootstrap_result, bsk_ggsw, ilog2, FourierLweBootstrapKey};
use crate::glwe::GlweCiphertext;
use crate::lwe::LweCiphertext;
use crate::modulus::CiphertextModulus;
use crate::encryption::{generate_bootstrap_key, ggsw_row, phase_is_small, GlweSecretKey};
use crate::random::Generator;
use vstd::prelude::*;

verus! {

/// The secret key: a binary GLWE key, also read flat as the LWE key of the ciphertexts.
#[derive(Clone, Debug)]
pub struct ClientKey {
    pub glwe_secret_key: GlweSecretKey,
    pub parameters: FheBoolParameters,
}

/// The public evaluation key: the bootstrapping key of the client key.
#[derive(Clone, Debug)]
pub struct ServerKey {
    pub bootstrapping_key: FourierLweBootstrapKey,
    pub parameters: FheBoolParameters,
}

impl ClientKey {
    pub open spec fn wf(&self) -> bool {
        &&& self.parameters.wf()
        &&& self.glwe_secret_key.wf()
        &&& self.glwe_secret_key.polynomial_size == self.parameters.polynomial_size
        &&& self.glwe_secret_key.data.len() == self.parameters.lwe_dimension
    }

    /// A fresh random key for `parameters`.
    pub fn new(parameters: FheBoolParameters, generator: &mut Generator) -> (r: Self)
        requires
            parameters.wf(),
        ensures
            r.wf(),
            r.parameters == parameters,
    {
        let glwe_secret_key = GlweSecretKey::generate(
            parameters.glwe_dimension,
            parameters.polynomial_size,
            generator,
        );
        ClientKey { glwe_secret_key, parameters }
    }

}

impl ServerKey {
    pub open spec fn wf(&self) -> bool {
        &&& self.parameters.wf()
        &&& self.bootstrapping_key.wf()
        &&& self.bootstrapping_key.shape == self.parameters.shape()
        &&& self.bootstrapping_key.input_lwe_dimension == self.parameters.lwe_dimension
    }

    /// The output of bootstrapping `input` through the accumulator `accumulator`.
    pub open spec fn pbs_output(&self, input: Seq<u64>, accumulator: Seq<u64>) -> Seq<u64> {
        bootstrap_result(
            input,
            accumulator,
            self.bootstrapping_key.data@,
            self.parameters.shape(),
            ilog2(self.parameters.polynomial_size as nat),
            CiphertextModulus { log2: 64 },
        )
    }

    /// Bootstraps `input` through `accumulator` into a fresh ciphertext.
    pub fn programmable_bootstrap(&self, input: &LweCiphertext, accumulator: &GlweCiphertext) -> (r: LweCiphertext)
        requires
            self.wf(),
            input.wf(),
            input.ciphertext_modulus.is_native(),
            input.data.len() == self.parameters.lwe_dimension + 1,
            accumulator.wf(),
            accumulator.ciphertext_modulus.is_native(),
            accumulator.polynomial_size == self.parameters.polynomial_size,
            accumulator.data.len() == self.parameters.shape().glwe_len(),
        ensures
            r.wf(),
            r.ciphertext_modulus.is_native(),
            r.data.len() == self.parameters.lwe_dimension + 1,
            r.data@ == self.pbs_output(input.data@, accumulator.data@),
    {
        proof {
            self.parameters.lemma_dimensions();
            self.parameters.shape().lemma_sizes();
            assert((self.parameters.glwe_dimension + 1 - 1) * self.parameters.polynomial_size
                == self.parameters.lwe_dimension);
        }
        let mut out = LweCiphertext::new(0, self.parameters.lwe_dimension + 1, CiphertextModulus::new_native());
        self.bootstrapping_key.bootstrap(&mut out, input, accumulator);
        proof {
            assert(accumulator.ciphertext_modulus == (CiphertextModulus { log2: 64 }));
        }
        out
    }

    /// The bootstrapping key of `client_key`.
    pub fn new(client_key: &ClientKey, generator: &mut Generator) -> (r: Self)
        requires
            client_key.wf(),
        ensures
            r.wf(),
            r.parameters == client_key.parameters,
            forall|i: int, row: int|
                0 <= i < client_key.glwe_secret_key.data.len() && client_key.glwe_secret_key.data@[i] == 0 && 0
                    <= row < client_key.parameters.shape().rows() ==> #[trigger] phase_is_small(
                    ggsw_row(bsk_ggsw(r.bootstrapping_key.data@, client_key.parameters.shape(), i), client_key.parameters.shape(), row),
                    client_key.glwe_secret_key.data@,
                    client_key.parameters.polynomial_size as nat,
                    client_key.parameters.glwe_noise_log as nat,
                ),
    {
        let parameters = client_key.parameters;
        let shape = parameters.shape_exec();
        let lwe_key = client_key.glwe_secret_key.as_lwe_secret_key();
        proof {
            shape.lemma_sizes();
            parameters.lemma_dimensions();
        }
        let bootstrapping_key = generate_bootstrap_key(
            &lwe_key,
            &client_key.glwe_secret_key,
            shape,
            parameters.glwe_noise_log,
            generator,
        );
        ServerKey { bootstrapping_key, parameters }
    }

}

/// Fresh client and server keys for `parameters`.
pub fn generate_keys(parameters: FheBoolParameters, generator: &mut Generator) -> (r: (ClientKey, ServerKey))
    requires
        parameters.wf(),
    ensures
        r.0.wf(),
        r.1.wf(),
        r.0.parameters == parameters,
        r.1.parameters == parameters,
{
    let client_key = ClientKey::new(parameters, generator);
    let server_key = ServerKey::new(&client_key, generator);
    (client_key, server_key)
}

} // verus!
